//! What a mouse report is to the page.
//!
//! The status row is the program's own, so a click on it is not the page's
//! business; a release still is, so that a drag that ended there does not leave
//! the page with a button held down. A wheel is a distance and not an event.
use vstd::prelude::*;

use crate::double::{double_of, law_a_short_whole_number_is_exact};
use crate::fit::Metrics;
use crate::input::{page_point, point_of, MouseInput, MouseKind};
use crate::json::{
    field, lemma_each_is_found, lemma_none_is_found, named_once, record_of, text_of, whole_of, Json,
    Value,
};

verus! {

/// CSS pixels per wheel notch.
pub const WHEEL_PIXELS: i64 = 120;

/// How close in time two presses have to be to be a double click, in
/// nanoseconds.
pub const DOUBLE_CLICK: u64 = 500_000_000;

/// How close in pixels they have to be.
pub const DOUBLE_CLICK_SLOP: i32 = 4;

/// Presses close enough together in time and place to be one gesture.
#[derive(Debug, Clone, Copy, PartialEq, Eq)]
pub struct Clicks {
    /// When and where the last press was, and of which button.
    pub at: Option<(u64, i32, i32, u32)>,
    pub count: u32,
}

/// Two places are near each other.
pub open spec fn near(a: i32, b: i32) -> bool {
    -DOUBLE_CLICK_SLOP <= a - b <= DOUBLE_CLICK_SLOP
}

/// Whether two places are near each other.
fn is_near(a: i32, b: i32) -> (r: bool)
    ensures
        r == near(a, b),
{
    let d: i64 = a as i64 - b as i64;
    -(DOUBLE_CLICK_SLOP as i64) <= d && d <= DOUBLE_CLICK_SLOP as i64
}

impl Clicks {
    /// A press at `now` goes on from the last one: the same button, soon
    /// enough, and near enough.
    pub open spec fn goes_on(self, button: u32, x: i32, y: i32, now: u64) -> bool {
        match self.at {
            Some((when, px, py, pb)) => {
                &&& pb == button
                &&& (now < when || now - when < DOUBLE_CLICK)
                &&& near(px, x)
                &&& near(py, y)
            },
            None => false,
        }
    }

    /// The presses with one more.
    pub open spec fn pressed(self, button: u32, x: i32, y: i32, now: u64) -> Clicks {
        Clicks {
            at: Some((now, x, y, button)),
            count: if !self.goes_on(button, x, y, now) {
                1
            } else if self.count < u32::MAX {
                (self.count + 1) as u32
            } else {
                u32::MAX
            },
        }
    }

    /// One more press: which of its gesture it is.
    pub fn press(&mut self, button: u32, x: i32, y: i32, now: u64) -> (r: u32)
        ensures
            *final(self) == old(self).pressed(button, x, y, now),
            r == final(self).count,
    {
        let same = match self.at {
            Some((when, px, py, pb)) => pb == button && (now < when || now - when < DOUBLE_CLICK)
                && is_near(px, x) && is_near(py, y),
            None => false,
        };
        self.count = if !same {
            1
        } else if self.count < u32::MAX {
            self.count + 1
        } else {
            u32::MAX
        };
        self.at = Some((now, x, y, button));
        self.count
    }
}

impl Default for Clicks {
    fn default() -> (r: Clicks)
        ensures
            r == (Clicks { at: None, count: 0 }),
    {
        Clicks { at: None, count: 0 }
    }
}

/// The protocol's name of a button.
pub open spec fn named_button(button: Option<u32>) -> Seq<char> {
    if button == Some(0u32) {
        "left"@
    } else if button == Some(1u32) {
        "middle"@
    } else if button == Some(2u32) {
        "right"@
    } else {
        "none"@
    }
}

/// The protocol's name of a button.
pub fn button_name(button: Option<u32>) -> (r: &'static str)
    ensures
        r@ == named_button(button),
{
    match button {
        Some(0) => "left",
        Some(1) => "middle",
        Some(2) => "right",
        _ => "none",
    }
}

/// The bit a button has in the protocol's mask: left 1, right 2, middle 4.
pub open spec fn bit_of(button: Option<u32>) -> u32 {
    if button == Some(0u32) {
        1
    } else if button == Some(1u32) {
        4
    } else if button == Some(2u32) {
        2
    } else {
        0
    }
}

/// The bit a button has in the protocol's mask: left 1, right 2, middle 4.
pub fn button_bit(button: Option<u32>) -> (r: u32)
    ensures
        r == bit_of(button),
{
    match button {
        Some(0) => 1,
        Some(1) => 4,
        Some(2) => 2,
        _ => 0,
    }
}

/// What the mouse has been doing: its presses, and the buttons it holds down.
#[derive(Debug, Clone, Copy, PartialEq, Eq)]
pub struct Hand {
    pub clicks: Clicks,
    pub buttons: u32,
}

/// The button of a report, or the left one.
pub open spec fn button_or_left(button: Option<u32>) -> u32 {
    match button {
        Some(b) => b,
        None => 0,
    }
}

/// A whole number in a message.
pub open spec fn whole(n: int) -> Value {
    Value::Number(double_of(n as int))
}

impl Hand {
    /// The hand after a report at a place on the page.
    pub open spec fn after(self, report: MouseInput, x: i32, y: i32, now: u64) -> Hand {
        match report.kind {
            MouseKind::Press => Hand {
                clicks: self.clicks.pressed(button_or_left(report.button), x, y, now),
                buttons: self.buttons | bit_of(report.button),
            },
            MouseKind::Release => Hand {
                buttons: self.buttons & !bit_of(report.button),
                ..self
            },
            _ => self,
        }
    }

    /// A report, as the page is told of it, at a place on the page.
    pub open spec fn event(self, report: MouseInput, x: i32, y: i32, now: u64) -> Value {
        let after = self.after(report, x, y, now);
        Value::Record(
            seq![
                (
                    "type"@,
                    Value::Text(
                        match report.kind {
                            MouseKind::Press => "mousePressed"@,
                            MouseKind::Release => "mouseReleased"@,
                            _ => "mouseMoved"@,
                        },
                    ),
                ),
                ("x"@, whole(x as int)),
                ("y"@, whole(y as int)),
                ("modifiers"@, whole(report.mods.engine_mask())),
                ("button"@, Value::Text(named_button(report.button))),
                ("buttons"@, whole(after.buttons as int)),
            ] + (match report.kind {
                MouseKind::Press => seq![("clickCount"@, whole(after.clicks.count as int))],
                MouseKind::Release => seq![("clickCount"@, whole(1))],
                _ => Seq::empty(),
            }),
        )
    }

    /// What a report is: the hand after it, and what the page is told. Nothing
    /// above the page is the page's but a release, and a wheel is no event.
    pub open spec fn reported(
        self,
        report: MouseInput,
        pixels: bool,
        cell: (u32, u32),
        now: u64,
    ) -> (Hand, Option<Value>) {
        let (x, above) = point_of(report, pixels, cell, 1);
        let y = if above < 0 {
            0i32
        } else {
            above
        };
        if report.kind == MouseKind::Wheel || (above < 0 && report.kind != MouseKind::Release) {
            (self, None)
        } else {
            (self.after(report, x, y, now), Some(self.event(report, x, y, now)))
        }
    }

    /// What a report is to the page: the parameters of an
    /// `Input.dispatchMouseEvent`, when it is anything.
    pub fn send_mouse(
        &mut self,
        report: &MouseInput,
        pixels: bool,
        metrics: Metrics,
        now: u64,
    ) -> (r: Option<Json>)
        ensures
            *final(self) == old(self).reported(*report, pixels, metrics.cell, now).0,
            match r {
                Some(params) => old(self).reported(*report, pixels, metrics.cell, now).1 == Some(
                    params@,
                ),
                None => old(self).reported(*report, pixels, metrics.cell, now).1 is None,
            },
    {
        let (x, above) = page_point(report, pixels, metrics.cell, 1);
        if report.kind == MouseKind::Wheel || (above < 0 && report.kind != MouseKind::Release) {
            return None;
        }
        let y: i32 = if above < 0 {
            0
        } else {
            above
        };
        let mut extra: Vec<(&str, Json)> = Vec::new();
        let kind = match report.kind {
            MouseKind::Press => {
                self.buttons = self.buttons | button_bit(report.button);
                let button: u32 = match report.button {
                    Some(b) => b,
                    None => 0,
                };
                let count = self.clicks.press(button, x, y, now);
                extra.push(("clickCount", Json::number(count as i64)));
                "mousePressed"
            },
            MouseKind::Release => {
                self.buttons = self.buttons & !button_bit(report.button);
                extra.push(("clickCount", Json::number(1)));
                "mouseReleased"
            },
            _ => "mouseMoved",
        };
        let mut fields = vec![
            ("type", Json::string(kind)),
            ("x", Json::number(x as i64)),
            ("y", Json::number(y as i64)),
            ("modifiers", Json::number(report.mods.cdp() as i64)),
            ("button", Json::string(button_name(report.button))),
            ("buttons", Json::number(self.buttons as i64)),
        ];
        fields.append(&mut extra);
        proof {
            assert(*self == old(self).after(*report, x, y, now));
            assert(record_of(fields@) =~= old(self).event(*report, x, y, now)->Record_0);
        }
        Some(Json::object(fields))
    }
}

impl Default for Hand {
    fn default() -> (r: Hand)
        ensures
            r == (Hand { clicks: Clicks { at: None, count: 0 }, buttons: 0 }),
    {
        Hand { clicks: Clicks::default(), buttons: 0 }
    }
}

/// A notch of the wheel: where on the page, and how far, in pixels; nothing
/// over the status row.
pub open spec fn scrolled(report: MouseInput, pixels: bool, cell: (u32, u32)) -> Option<
    ((i32, i32), (i64, i64)),
> {
    let (x, y) = point_of(report, pixels, cell, 1);
    if y < 0 {
        None
    } else {
        Some(
            (
                (x, y),
                (
                    (report.wheel.0 * WHEEL_PIXELS) as i64,
                    (report.wheel.1 * WHEEL_PIXELS) as i64,
                ),
            ),
        )
    }
}

/// A notch of the wheel: where on the page, and how far, in pixels. The sign is
/// the page's. Over the status row it is not the page's business.
pub fn scroll(report: &MouseInput, pixels: bool, metrics: Metrics) -> (r: Option<
    ((i32, i32), (i64, i64)),
>)
    ensures
        r == scrolled(*report, pixels, metrics.cell),
{
    let (x, y) = page_point(report, pixels, metrics.cell, 1);
    if y < 0 {
        return None;
    }
    Some(
        (
            (x, y),
            (report.wheel.0 as i64 * WHEEL_PIXELS, report.wheel.1 as i64 * WHEEL_PIXELS),
        ),
    )
}

/// One step of a scroll, as the page is told of it.
pub open spec fn wheel_of(at: (i32, i32), delta: (i64, i64)) -> Value {
    Value::Record(
        seq![
            ("type"@, Value::Text("mouseWheel"@)),
            ("x"@, whole(at.0 as int)),
            ("y"@, whole(at.1 as int)),
            ("deltaX"@, whole(delta.0 as int)),
            ("deltaY"@, whole(delta.1 as int)),
            ("modifiers"@, whole(0)),
            ("button"@, Value::Text("none"@)),
            ("buttons"@, whole(0)),
        ],
    )
}

/// The parameters of the `Input.dispatchMouseEvent` that is one step of a
/// scroll.
pub fn wheel_params(at: (i32, i32), delta: (i64, i64)) -> (r: Json)
    ensures
        r@ == wheel_of(at, delta),
{
    let fields = vec![
        ("type", Json::string("mouseWheel")),
        ("x", Json::number(at.0 as i64)),
        ("y", Json::number(at.1 as i64)),
        ("deltaX", Json::number(delta.0)),
        ("deltaY", Json::number(delta.1)),
        ("modifiers", Json::number(0)),
        ("button", Json::string("none")),
        ("buttons", Json::number(0)),
    ];
    proof {
        assert(record_of(fields@) =~= wheel_of(at, delta)->Record_0);
    }
    Json::object(fields)
}

// ---- laws ----

/// A release of a button that was pressed leaves the other buttons as they
/// were before the press.
pub proof fn law_a_release_undoes_a_press(buttons: u32, button: Option<u32>)
    requires
        buttons & bit_of(button) == 0,
    ensures
        (buttons | bit_of(button)) & !bit_of(button) == buttons,
{
    let bit = bit_of(button);
    assert((buttons | bit) & !bit == buttons) by (bit_vector)
        requires
            buttons & bit == 0,
    ;
}

/// Whatever happens over the status row, the page is told of no press, no move
/// and no wheel there.
pub proof fn law_the_row_is_not_the_pages(
    hand: Hand,
    report: MouseInput,
    pixels: bool,
    cell: (u32, u32),
    now: u64,
)
    requires
        point_of(report, pixels, cell, 1).1 < 0,
        report.kind != MouseKind::Release,
    ensures
        hand.reported(report, pixels, cell, now) == (hand, None::<Value>),
        scrolled(report, pixels, cell) is None,
{
}

/// The other button, or a press too late or too far off, starts a gesture of
/// its own.
pub proof fn law_another_press_starts_again(
    clicks: Clicks,
    button: u32,
    x: i32,
    y: i32,
    now: u64,
)
    requires
        !clicks.goes_on(button, x, y, now),
    ensures
        clicks.pressed(button, x, y, now).count == 1,
{
}

/// The names of what a page is told of a report, each under its own.
proof fn lemma_told(hand: Hand, report: MouseInput, x: i32, y: i32, now: u64)
    ensures
        ({
            let params = hand.event(report, x, y, now);
            let after = hand.after(report, x, y, now);
            &&& field(params, "type"@) == Some(
                Value::Text(
                    match report.kind {
                        MouseKind::Press => "mousePressed"@,
                        MouseKind::Release => "mouseReleased"@,
                        _ => "mouseMoved"@,
                    },
                ),
            )
            &&& field(params, "x"@) == Some(whole(x as int))
            &&& field(params, "y"@) == Some(whole(y as int))
            &&& field(params, "modifiers"@) == Some(whole(report.mods.engine_mask()))
            &&& field(params, "button"@) == Some(Value::Text(named_button(report.button)))
            &&& field(params, "buttons"@) == Some(whole(after.buttons as int))
            &&& field(params, "clickCount"@) == match report.kind {
                MouseKind::Press => Some(whole(after.clicks.count as int)),
                MouseKind::Release => Some(whole(1)),
                _ => None,
            }
        }),
{
    let fields = hand.event(report, x, y, now)->Record_0;
    reveal_strlit("type");
    reveal_strlit("x");
    reveal_strlit("y");
    reveal_strlit("modifiers");
    reveal_strlit("button");
    reveal_strlit("buttons");
    reveal_strlit("clickCount");
    assert("type"@.len() == 4);
    assert("x"@.len() == 1);
    assert("y"@.len() == 1);
    assert("modifiers"@.len() == 9);
    assert("button"@.len() == 6);
    assert("buttons"@.len() == 7);
    assert("clickCount"@.len() == 10);
    assert("x"@[0] != "y"@[0]);
    assert(fields[0].0 == "type"@);
    assert(fields[1].0 == "x"@);
    assert(fields[2].0 == "y"@);
    assert(fields[3].0 == "modifiers"@);
    assert(fields[4].0 == "button"@);
    assert(fields[5].0 == "buttons"@);
    if report.kind == MouseKind::Press || report.kind == MouseKind::Release {
        assert(fields[6].0 == "clickCount"@);
    } else {
        lemma_none_is_found(fields, "clickCount"@);
    }
    assert(named_once(fields));
    lemma_each_is_found(fields);
}

/// The three words for what the mouse did are three.
proof fn lemma_three_words()
    ensures
        "mousePressed"@ != "mouseReleased"@,
        "mousePressed"@ != "mouseMoved"@,
        "mouseReleased"@ != "mouseMoved"@,
{
    reveal_strlit("mousePressed");
    reveal_strlit("mouseReleased");
    reveal_strlit("mouseMoved");
    assert("mousePressed"@.len() == 12);
    assert("mouseReleased"@.len() == 13);
    assert("mouseMoved"@.len() == 10);
}

/// A press is told as a press, a release as a release and a move as a move, and
/// nothing is told of a wheel.
pub proof fn law_the_page_is_told_what_the_mouse_did(
    hand: Hand,
    report: MouseInput,
    pixels: bool,
    cell: (u32, u32),
    now: u64,
)
    ensures
        match hand.reported(report, pixels, cell, now).1 {
            Some(params) => {
                &&& text_of(field(params, "type"@)) == Some("mousePressed"@) <==> report.kind
                    == MouseKind::Press
                &&& text_of(field(params, "type"@)) == Some("mouseReleased"@) <==> report.kind
                    == MouseKind::Release
                &&& text_of(field(params, "type"@)) == Some("mouseMoved"@) <==> report.kind
                    == MouseKind::Move
                &&& report.kind != MouseKind::Wheel
            },
            None => report.kind != MouseKind::Release,
        },
{
    let (x, above) = point_of(report, pixels, cell, 1);
    let y = if above < 0 {
        0i32
    } else {
        above
    };
    lemma_told(hand, report, x, y, now);
    lemma_three_words();
}

/// Where the page is told the mouse is: in pixels, the pane's place less the
/// row above the page; in cells, the middle of the cell. A press or a move on
/// the page is always told.
pub proof fn law_the_page_is_told_where_the_mouse_is(
    hand: Hand,
    report: MouseInput,
    cell: (u32, u32),
    now: u64,
)
    requires
        report.kind == MouseKind::Press || report.kind == MouseKind::Release || report.kind
            == MouseKind::Move,
    ensures
        i32::MIN + cell.1 <= report.y && report.y >= cell.1 ==> {
            &&& hand.reported(report, true, cell, now).1 matches Some(params)
            &&& whole_of(field(params, "x"@)) == Some(report.x as i64)
            &&& whole_of(field(params, "y"@)) == Some((report.y - cell.1) as i64)
        },
        0 < cell.0 <= 0x7fff && 0 < cell.1 <= 0x7fff && 0 <= report.x <= 0x7fff && 1 <= report.y
            <= 0x7fff ==> {
            &&& hand.reported(report, false, cell, now).1 matches Some(params)
            &&& whole_of(field(params, "x"@)) matches Some(x) && report.x * cell.0 <= x < (report.x
                + 1) * cell.0 && (x - report.x * cell.0) == cell.0 as int / 2
            &&& whole_of(field(params, "y"@)) matches Some(y) && (report.y - 1) * cell.1 <= y
                < report.y * cell.1 && (y - (report.y - 1) * cell.1) == cell.1 as int / 2
        },
{
    if report.y >= cell.1 {
        let (x, y) = point_of(report, true, cell, 1);
        lemma_told(hand, report, x, y, now);
        law_a_short_whole_number_is_exact(x as int);
        law_a_short_whole_number_is_exact(y as int);
    }
    if 0 < cell.0 <= 0x7fff && 0 < cell.1 <= 0x7fff && 0 <= report.x <= 0x7fff && 1 <= report.y
        <= 0x7fff {
        let (x, y) = point_of(report, false, cell, 1);
        let (w, h, a, b) = (cell.0 as int, cell.1 as int, report.x as int, report.y - 1);
        assert(0 <= a * w <= 0x7fff * 0x7fff && 0 <= b * h <= 0x7fff * 0x7fff) by (
            nonlinear_arith)
            requires
                0 < w <= 0x7fff,
                0 < h <= 0x7fff,
                0 <= a <= 0x7fff,
                0 <= b <= 0x7fff,
        ;
        assert((a + 1) * w == a * w + w && (b + 1) * h == b * h + h) by (nonlinear_arith);
        lemma_told(hand, report, x, y, now);
        law_a_short_whole_number_is_exact(x as int);
        law_a_short_whole_number_is_exact(y as int);
    }
}

/// What the page is told of the buttons: left, middle and right by their names,
/// and those held down as the bits 1, 4 and 2, which a press adds and a release
/// takes away.
pub proof fn law_the_page_is_told_which_buttons(
    hand: Hand,
    report: MouseInput,
    pixels: bool,
    cell: (u32, u32),
    now: u64,
)
    ensures
        hand.reported(report, pixels, cell, now).1 matches Some(params) ==> {
            let bit: u32 = match report.button {
                Some(0) => 1,
                Some(1) => 4,
                Some(2) => 2,
                _ => 0,
            };
            &&& text_of(field(params, "button"@)) == Some(
                match report.button {
                    Some(0) => "left"@,
                    Some(1) => "middle"@,
                    Some(2) => "right"@,
                    _ => "none"@,
                },
            )
            &&& whole_of(field(params, "buttons"@)) == Some(
                hand.reported(report, pixels, cell, now).0.buttons as i64,
            )
            &&& hand.reported(report, pixels, cell, now).0.buttons == match report.kind {
                MouseKind::Press => hand.buttons | bit,
                MouseKind::Release => hand.buttons & !bit,
                _ => hand.buttons,
            }
            &&& whole_of(field(params, "modifiers"@)) == Some(report.mods.engine_mask() as i64)
        },
{
    let (x, above) = point_of(report, pixels, cell, 1);
    let y = if above < 0 {
        0i32
    } else {
        above
    };
    lemma_told(hand, report, x, y, now);
    law_a_short_whole_number_is_exact(hand.after(report, x, y, now).buttons as int);
    law_a_short_whole_number_is_exact(report.mods.engine_mask());
}

/// A press of the same button, within half a second and four pixels of the last
/// one either way, is one more of the same gesture, and any other press is the
/// first of its own. The page is told which it is.
pub proof fn law_the_page_is_told_which_click(
    hand: Hand,
    report: MouseInput,
    now: u64,
    cell: (u32, u32),
)
    requires
        report.kind == MouseKind::Press,
        report.y >= cell.1,
        hand.clicks.count < u32::MAX,
    ensures
        ({
            let y = report.y - cell.1;
            let button = match report.button {
                Some(b) => b,
                None => 0u32,
            };
            let again = hand.clicks.at matches Some((when, px, py, pb)) && pb == button && (now
                < when || now - when < 500_000_000) && -4 <= px - report.x <= 4 && -4 <= py - y
                <= 4;
            let count: int = if again {
                hand.clicks.count + 1
            } else {
                1
            };
            &&& hand.reported(report, true, cell, now).1 matches Some(params) && whole_of(
                field(params, "clickCount"@),
            ) == Some(count as i64)
            &&& hand.reported(report, true, cell, now).0.clicks == (Clicks {
                at: Some((now, report.x, y as i32, button)),
                count: count as u32,
            })
        }),
{
    let (x, y) = point_of(report, true, cell, 1);
    lemma_told(hand, report, x, y, now);
    law_a_short_whole_number_is_exact(hand.after(report, x, y, now).clicks.count as int);
}

/// A notch of the wheel is a hundred and twenty pixels, the way the wheel was
/// turned, and the page is told so at the place.
pub proof fn law_a_notch_is_told_as_it_was_turned(
    report: MouseInput,
    cell: (u32, u32),
    at: (i32, i32),
    delta: (i64, i64),
)
    requires
        report.y >= cell.1,
    ensures
        scrolled(report, true, cell) == Some(
            (
                (report.x, (report.y - cell.1) as i32),
                ((report.wheel.0 * 120) as i64, (report.wheel.1 * 120) as i64),
            ),
        ),
        text_of(field(wheel_of(at, delta), "type"@)) == Some("mouseWheel"@),
        field(wheel_of(at, delta), "x"@) == Some(Value::Number(double_of(at.0 as int))),
        field(wheel_of(at, delta), "y"@) == Some(Value::Number(double_of(at.1 as int))),
        field(wheel_of(at, delta), "deltaX"@) == Some(Value::Number(double_of(delta.0 as int))),
        field(wheel_of(at, delta), "deltaY"@) == Some(Value::Number(double_of(delta.1 as int))),
{
    let fields = wheel_of(at, delta)->Record_0;
    reveal_strlit("type");
    reveal_strlit("x");
    reveal_strlit("y");
    reveal_strlit("deltaX");
    reveal_strlit("deltaY");
    reveal_strlit("modifiers");
    reveal_strlit("button");
    reveal_strlit("buttons");
    assert("type"@.len() == 4);
    assert("x"@.len() == 1);
    assert("y"@.len() == 1);
    assert("deltaX"@.len() == 6);
    assert("deltaY"@.len() == 6);
    assert("modifiers"@.len() == 9);
    assert("button"@.len() == 6);
    assert("buttons"@.len() == 7);
    assert("x"@[0] != "y"@[0]);
    assert("deltaX"@[5] != "deltaY"@[5]);
    assert("deltaX"@[0] != "button"@[0]);
    assert("deltaY"@[0] != "button"@[0]);
    assert(fields[0].0 == "type"@);
    assert(fields[1].0 == "x"@);
    assert(fields[2].0 == "y"@);
    assert(fields[3].0 == "deltaX"@);
    assert(fields[4].0 == "deltaY"@);
    assert(fields[5].0 == "modifiers"@);
    assert(fields[6].0 == "button"@);
    assert(fields[7].0 == "buttons"@);
    assert(named_once(fields));
    lemma_each_is_found(fields);
}

}
