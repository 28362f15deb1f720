use blinkterm::app::{Act, Browser};
use blinkterm::double::Double;
use blinkterm::drive::{
    coalesce, collect_still, heard, leaving, listen, on_params, pass, picture, request_still,
    target_params, url_params, Activation, Chore, Farewell, Listening, Stage, Still, Waited, CHECK_EVERY, PASTE_IDLE,
    STILL_TIMEOUT,
};
use blinkterm::errands::{emulate_params, screencast_params, tell};
use blinkterm::events::PageAct;
use blinkterm::fit::Metrics;
use blinkterm::history::History;
use blinkterm::input::{page_point, Key, KeyAction, KeyInput, Mods, MouseInput, MouseKind};
use blinkterm::json::Json;
use blinkterm::keys::{command, dispatch, insert_text, send_key};
use blinkterm::motion::{stamp, Motion, INPUT_QUIET, REST};
use blinkterm::mouse::{
    scroll, wheel_params, Clicks, Hand, DOUBLE_CLICK, DOUBLE_CLICK_SLOP, WHEEL_PIXELS,
};
use blinkterm::seek::Reply;
use blinkterm::tabs::{Tab, Tabs};

fn pane() -> Metrics {
    Metrics {
        cols: 80,
        rows: 24,
        cell: (8, 16),
    }
}

fn parse(text: &str) -> Json {
    Json::parse(text).expect("the test's own JSON")
}

fn key(k: Key, mods: u32, action: KeyAction, text: Option<char>) -> KeyInput {
    KeyInput {
        key: k,
        mods: Mods(mods),
        action,
        text,
    }
}

fn mouse(kind: MouseKind, button: Option<u32>, x: i32, y: i32) -> MouseInput {
    MouseInput {
        kind,
        button,
        x,
        y,
        wheel: (0, 0),
        mods: Mods::default(),
    }
}

#[test]
fn a_page_that_stays_still_is_photographed_once_and_not_by_its_own_shutter() {
    let mut motion = Motion::new(0);
    assert!(!motion.wants_still(REST - 1));
    assert!(!motion.wants_still(REST), "the person has only just stopped");
    assert!(motion.wants_still(INPUT_QUIET));
    motion.still_requested();
    assert!(!motion.wants_still(INPUT_QUIET * 2), "one is out");
    // The still makes the page paint once of itself.
    assert!(motion.motion_frame(Some(10), INPUT_QUIET));
    assert!(motion.still_arrived(11));
    assert!(!motion.wants_still(INPUT_QUIET * 100), "it has had its still");
    assert!(
        !motion.motion_frame(Some(5), INPUT_QUIET),
        "what is on the screen never goes back in time"
    );
    // A page that moves again gets another.
    assert!(motion.motion_frame(Some(20), INPUT_QUIET * 2));
    assert!(motion.wants_still(INPUT_QUIET * 2 + REST));
    motion.input(INPUT_QUIET * 3);
    assert!(!motion.wants_still(INPUT_QUIET * 3 + REST));
}

#[test]
fn two_frames_in_a_stills_window_are_the_page_moving() {
    let mut motion = Motion::new(0);
    motion.still_requested();
    motion.motion_frame(Some(1), REST);
    motion.motion_frame(Some(2), REST * 2);
    motion.still_failed();
    motion.reset(REST * 3);
    assert_eq!(motion.moved, REST * 3);
    assert!(!motion.wants_still(REST * 3));
}

#[test]
fn a_pass_is_over_when_the_person_quit_or_nothing_is_left() {
    assert_eq!(pass(true, false, true, 0, true), vec![Chore::Over]);
    assert_eq!(pass(false, true, false, 0, false), vec![Chore::Over]);
    let chores = pass(false, false, true, CHECK_EVERY + 1, true);
    assert_eq!(chores[..3], [Chore::Expire, Chore::Resize, Chore::CheckEngine]);
    let at = |chore: Chore| chores.iter().position(|c| *c == chore).expect("a chore");
    assert!(at(Chore::Targets) < at(Chore::Pages));
    assert!(at(Chore::Pages) < at(Chore::Navigation));
    assert_eq!(chores.last(), Some(&Chore::Rest));
    let quiet = pass(false, false, false, CHECK_EVERY, false);
    for chore in [Chore::Resize, Chore::CheckEngine, Chore::Navigation] {
        assert!(!quiet.contains(&chore), "{chore:?}");
    }
}

#[test]
fn a_paste_that_stops_halfway_is_abandoned() {
    assert_eq!(listen(true, None, 0), Listening::Read);
    assert_eq!(heard(true, 7), Some(7));
    assert_eq!(heard(false, 7), None);
    assert_eq!(listen(false, None, 0), Listening::Flush);
    assert_ne!(listen(false, Some(0), 1), Listening::Abandon);
    assert_eq!(listen(false, Some(0), PASTE_IDLE + 1), Listening::Abandon);
}

#[test]
fn a_page_is_made_to_paint_and_a_stopped_one_is_told_and_not_asked() {
    let mut activation = Activation::new();
    assert_eq!(
        activation.next("A", pane()),
        None,
        "the engine raises it, not the page"
    );
    let mut methods = Vec::new();
    for _ in 0..5 {
        match activation.next("A", pane()) {
            Some(Act::Call { target, method, .. }) => {
                assert_eq!(target, "A");
                methods.push(method);
            }
            Some(other) => panic!("{other:?}"),
            None => {}
        }
        activation = activation.done(Ok(()), false).expect("it paints");
    }
    assert_eq!(activation.stage, Stage::Done);
    assert_eq!(
        methods,
        vec![
            "Page.enable",
            "Emulation.setDeviceMetricsOverride",
            "Page.startScreencast"
        ]
    );

    let mut activation = Activation::new().done(Ok(()), true).expect("raised");
    while activation.stage != Stage::Done {
        if let Some(act) = activation.next("A", pane()) {
            assert!(matches!(act, Act::Tell { .. }), "{act:?}");
        }
        activation = activation.done(Ok(()), true).expect("told");
    }

    // A dialog that opened in between is no failure; silence is one.
    let enabling = Activation::new().done(Ok(()), false).expect("raised");
    assert!(enabling.done(Err("no answer".to_string()), true).is_ok());
    assert_eq!(
        enabling.done(Err("no answer".to_string()), false),
        Err("no answer".to_string())
    );
}

#[test]
fn leaving_removes_the_partial_files_after_the_engine_has_stopped() {
    for temporary in [false, true] {
        let steps = leaving(temporary);
        let at = |step: Farewell| steps.iter().position(|s| *s == step);
        assert_eq!(steps[0], Farewell::LeavePane);
        assert!(at(Farewell::KillEngine) < at(Farewell::RemovePartials));
        assert_eq!(at(Farewell::CloseEngine).is_none(), temporary);
    }
}

#[test]
fn a_still_is_of_the_page_in_front_or_it_is_dropped() {
    let mut tabs = Tabs::new(Tab::new("A", ""));
    tabs.open(Tab::new("B", ""));
    let still = Still {
        target: "B".to_string(),
        ticket: 4,
        sent: 100,
    };
    assert_eq!(collect_still(&still, &tabs, true, 101), Waited::Take);
    assert_eq!(collect_still(&still, &tabs, false, 101), Waited::Keep);
    assert_eq!(
        collect_still(&still, &tabs, false, 101 + STILL_TIMEOUT),
        Waited::GiveUp
    );
    tabs.select_next();
    assert_eq!(collect_still(&still, &tabs, true, 101), Waited::Drop);
    let (target, params) = request_still(&tabs, true).expect("earned");
    assert_eq!(target, "A");
    assert_eq!(params.get("format").and_then(Json::as_str), Some("png"));
    assert_eq!(request_still(&tabs, false), None);
    assert_eq!(
        picture(&Reply::Came(parse(r#"{"data":"aGk="}"#))),
        Some(b"hi".to_vec())
    );
    assert_eq!(picture(&Reply::Came(parse("{}"))), None);
    assert_eq!(picture(&Reply::Refused("no".to_string())), None);
}

#[test]
fn what_is_sent_to_the_engine_is_the_size_of_the_page() {
    let emulate = emulate_params(pane());
    assert_eq!(emulate.get("width").and_then(Json::as_i64), Some(640));
    assert_eq!(emulate.get("height").and_then(Json::as_i64), Some(368));
    let cast = screencast_params(pane());
    assert_eq!(cast.get("format").and_then(Json::as_str), Some("jpeg"));
    assert_eq!(cast.get("maxWidth").and_then(Json::as_i64), Some(640));
    assert_eq!(
        target_params("T").get("targetId").and_then(Json::as_str),
        Some("T")
    );
    assert_eq!(
        url_params("u").get("url").and_then(Json::as_str),
        Some("u")
    );
    assert_eq!(
        on_params("discover").get("discover").and_then(Json::as_bool),
        Some(true)
    );
    let params = || Json::empty();
    assert!(matches!(
        tell("A".to_string(), true, "M", params()),
        Act::Tell { .. }
    ));
    assert!(matches!(
        tell("A".to_string(), false, "M", params()),
        Act::Call { .. }
    ));
}

#[test]
fn a_new_size_is_told_to_the_page_in_front() {
    let mut browser = Browser::new(
        Tab::new("A", ""),
        History::in_memory(),
        None,
        pane(),
        true,
    );
    let bigger = Metrics {
        cols: 100,
        rows: 30,
        cell: (8, 16),
    };
    let acts = browser.resize(bigger);
    assert_eq!(browser.metrics, bigger);
    assert!(
        acts.iter().any(|act| matches!(act,
            Act::Call { target, params, .. } if target == "A" && *params == emulate_params(bigger))),
        "{acts:?}"
    );
}

#[test]
fn a_key_is_told_to_the_page_with_its_name_and_its_text() {
    let a = dispatch(&key(Key::Char('a'), 0, KeyAction::Press, Some('a'))).expect("a key");
    assert_eq!(a.get("type").and_then(Json::as_str), Some("keyDown"));
    assert_eq!(a.get("text").and_then(Json::as_str), Some("a"));
    assert_eq!(
        a.get("windowsVirtualKeyCode").and_then(Json::as_i64),
        Some(65)
    );
    let chord = dispatch(&key(Key::Char('a'), Mods::CTRL, KeyAction::Press, None)).expect("a key");
    assert_eq!(chord.get("type").and_then(Json::as_str), Some("rawKeyDown"));
    assert_eq!(chord.get("text"), None);
    assert_eq!(chord.get("modifiers").and_then(Json::as_i64), Some(2));
    let up = dispatch(&key(Key::Enter, 0, KeyAction::Release, None)).expect("a key");
    assert_eq!(up.get("type").and_then(Json::as_str), Some("keyUp"));
    assert_eq!(up.get("key").and_then(Json::as_str), Some("Enter"));
    let held = dispatch(&key(Key::Down, 0, KeyAction::Repeat, None)).expect("a key");
    assert_eq!(held.get("autoRepeat").and_then(Json::as_bool), Some(true));
    // A character with no key of its own is put in as text.
    assert_eq!(
        send_key(&key(Key::Char('日'), 0, KeyAction::Press, Some('日'))),
        Some(("Input.insertText", insert_text("日")))
    );
    assert_eq!(
        send_key(&key(Key::Char('日'), 0, KeyAction::Release, None)),
        None
    );
}

#[test]
fn a_bare_key_a_release_and_control_with_alt_are_the_pages() {
    for c in "qlrtwfcu19".chars() {
        for (mods, action) in [
            (0, KeyAction::Press),
            (Mods::SHIFT, KeyAction::Press),
            (Mods::CTRL | Mods::ALT, KeyAction::Press),
            (Mods::CTRL, KeyAction::Release),
            (Mods::ALT, KeyAction::Release),
        ] {
            assert_eq!(
                command(&key(Key::Char(c), mods, action, None)),
                None,
                "{c} {mods}"
            );
        }
    }
}

#[test]
fn a_release_undoes_a_press_and_the_row_is_not_the_pages() {
    let mut hand = Hand::default();
    let press = mouse(MouseKind::Press, Some(2), 10, 40);
    let told = hand
        .send_mouse(&press, true, pane(), 0)
        .expect("on the page");
    assert_eq!(told.get("buttons").and_then(Json::as_i64), Some(2));
    assert_eq!(told.get("button").and_then(Json::as_str), Some("right"));
    let other = mouse(MouseKind::Press, Some(0), 10, 40);
    hand.send_mouse(&other, true, pane(), 0);
    assert_eq!(hand.buttons, 3);
    let release = mouse(MouseKind::Release, Some(0), 10, 40);
    hand.send_mouse(&release, true, pane(), 0);
    assert_eq!(hand.buttons, 2, "the other is still down");
    for kind in [MouseKind::Press, MouseKind::Move] {
        let over = mouse(kind, Some(0), 10, 3);
        assert_eq!(hand.send_mouse(&over, true, pane(), 0), None);
    }
    // A release over the row still lets go.
    let over = mouse(MouseKind::Release, Some(2), 10, 3);
    let told = hand.send_mouse(&over, true, pane(), 0).expect("let go");
    assert_eq!(told.get("y").and_then(Json::as_i64), Some(0));
    assert_eq!(hand.buttons, 0);
}

#[test]
fn another_button_or_a_press_too_late_or_too_far_starts_again() {
    let mut clicks = Clicks::default();
    assert_eq!(clicks.press(0, 10, 10, 0), 1);
    assert_eq!(clicks.press(0, 10, 10, 1), 2);
    assert_eq!(clicks.press(2, 10, 10, 2), 1, "another button");
    assert_eq!(clicks.press(2, 10 + DOUBLE_CLICK_SLOP + 1, 10, 3), 1);
    assert_eq!(
        clicks.press(2, 10 + DOUBLE_CLICK_SLOP + 1, 10, 4 + DOUBLE_CLICK),
        1
    );
}

#[test]
fn a_notch_of_the_wheel_is_so_many_pixels_and_none_over_the_row() {
    let mut notch = mouse(MouseKind::Wheel, None, 100, 100);
    notch.wheel = (0, -1);
    assert_eq!(
        scroll(&notch, true, pane()),
        Some(((100, 84), (0, -WHEEL_PIXELS)))
    );
    notch.y = 3;
    assert_eq!(scroll(&notch, true, pane()), None);
    let params = wheel_params((100, 84), (0, 120));
    assert_eq!(
        params.get("type").and_then(Json::as_str),
        Some("mouseWheel")
    );
    assert_eq!(params.get("deltaY").and_then(Json::as_i64), Some(120));
}

#[test]
fn a_point_is_in_pixels_or_in_the_middle_of_its_cell() {
    let report = mouse(MouseKind::Move, None, 100, 100);
    assert_eq!(page_point(&report, true, (8, 16), 1), (100, 84));
    let (x, y) = page_point(&mouse(MouseKind::Move, None, 3, 2), false, (8, 16), 1);
    assert!((16..32).contains(&x), "{x}");
    assert!((0..32).contains(&y), "{y}");
}

#[test]
fn a_time_in_seconds_is_one_in_nanoseconds() {
    let stamped = |text: &str| stamp(Json::parse(text).and_then(|n| n.as_number()).expect(text));
    assert_eq!(
        stamped("1753017600.123456"),
        Some(1753017600123456001),
        "of the double that it is"
    );
    assert_eq!(stamped("12.5"), Some(12_500_000_000));
    assert_eq!(stamped("0"), Some(0));
    assert_eq!(stamped("-0"), Some(0));
    assert_eq!(stamped("0.0000000015"), Some(1), "cut, not rounded");
    assert_eq!(stamped("-1"), None);
    assert_eq!(stamped("9223372036854775807"), None, "past the clock");
    assert_eq!(stamped("1e300"), None);
    assert_eq!(stamped("1e-300"), Some(0));
}

#[test]
fn only_the_newest_frame_is_painted_and_every_one_is_counted() {
    let frame = |data: &str, seconds: i64| PageAct::Frame {
        data: data.to_string(),
        stamp: Some(Double::of(seconds)),
    };
    let mut motion = Motion::new(0);
    let acts = [
        PageAct::Ack { session: 1 },
        frame("QUJD", 10),
        PageAct::Ack { session: 2 },
        frame("REVG", 11),
    ];
    assert_eq!(coalesce(&mut motion, &acts, 5), Some(b"DEF".to_vec()));
    // One that is older than the screen is not, nor is one that is not base64.
    assert_eq!(coalesce(&mut motion, &[frame("QUJD", 9)], 6), None);
    assert_eq!(coalesce(&mut motion, &[frame("QUJD", 12), frame("*", 13)], 7), Some(b"ABC".to_vec()));
    assert_eq!(coalesce(&mut motion, &[PageAct::Ack { session: 3 }], 8), None);
    // Two frames in a still's window are the page moving, in one read or in two.
    let mut once = Motion::new(0);
    once.still_requested();
    let mut twice = Motion::new(0);
    twice.still_requested();
    coalesce(&mut once, &[frame("QUJD", 1), frame("QUJD", 2)], 9);
    coalesce(&mut twice, &[frame("QUJD", 1)], 9);
    coalesce(&mut twice, &[frame("QUJD", 2)], 9);
    assert_eq!(once, twice);
    assert!(!once.still_arrived(3));
}
