use blinkterm::app::{Act, Browser};
use blinkterm::clipboard::osc52;
use blinkterm::dialog::Dialog;
use blinkterm::fit::Metrics;
use blinkterm::history::History;
use blinkterm::input::{Input, Key, KeyAction, KeyInput, Mods, MouseInput, MouseKind};
use blinkterm::json::Json;
use blinkterm::row::Place;
use blinkterm::seek::{Next, Reply, FIND_TIMEOUT, NO_ANSWER};
use blinkterm::tabs::{Problem, Tab};
use blinkterm::upload::{Chooser, Upload};

const NOW: u64 = 1_000_000_000;

fn pane() -> Metrics {
    Metrics {
        cols: 80,
        rows: 24,
        cell: (8, 16),
    }
}

fn parse(text: &str) -> Json {
    Json::parse(text).expect("the test's own JSON")
}

/// A browser with one page in front, and as many more as are named.
fn browser(targets: &[&str]) -> Browser {
    let mut browser = Browser::new(
        Tab::new(targets[0], "https://example.com/"),
        History::in_memory(),
        None,
        pane(),
        true,
    );
    for target in &targets[1..] {
        browser.tabs.open(Tab::new(target, "https://other.example/"));
    }
    browser
}

fn pressed(key: Key, mods: u32) -> Input {
    Input::Key(KeyInput {
        key,
        mods: Mods(mods),
        action: KeyAction::Press,
        text: None,
    })
}

fn typed(c: char) -> Input {
    Input::Key(KeyInput {
        key: Key::Char(c),
        mods: Mods::default(),
        action: KeyAction::Press,
        text: Some(c),
    })
}

fn let_go(c: char) -> Input {
    Input::Key(KeyInput {
        key: Key::Char(c),
        mods: Mods::default(),
        action: KeyAction::Release,
        text: None,
    })
}

fn write(browser: &mut Browser, words: &str) {
    for c in words.chars() {
        browser.handle_input(&typed(c), NOW);
    }
}

fn alert() -> Dialog {
    Dialog::opening(&parse(
        r#"{"url":"https://example.com/","message":"hi","type":"alert","defaultPrompt":""}"#,
    ))
    .expect("a dialog")
}

fn asked(kind: &str) -> Dialog {
    Dialog::opening(&parse(&format!(
        r#"{{"url":"https://example.com/","message":"?","type":"{kind}","defaultPrompt":"me"}}"#
    )))
    .expect("a dialog")
}

fn chooser() -> Upload {
    Upload::new(
        Chooser {
            backend_node_id: 7,
            multiple: false,
            frame_id: "F".to_string(),
        },
        "/home/u".to_string(),
        Some("/home/u".to_string()),
    )
}

fn click(x: i32, y: i32) -> Input {
    Input::Mouse(MouseInput {
        kind: MouseKind::Press,
        button: Some(0),
        x,
        y,
        wheel: (0, 0),
        mods: Mods::default(),
    })
}

fn wheel(x: i32, y: i32) -> Input {
    Input::Mouse(MouseInput {
        kind: MouseKind::Wheel,
        button: None,
        x,
        y,
        wheel: (0, 1),
        mods: Mods::default(),
    })
}

#[test]
fn the_bar_is_opened_with_the_url_typed_over_and_gone_to() {
    let mut b = browser(&["A"]);
    assert_eq!(b.place(), None);
    let acts = b.handle_input(&pressed(Key::Char('l'), Mods::CTRL), NOW);
    assert_eq!(acts, vec![Act::Stir, Act::Redraw]);
    assert_eq!(b.place(), Some(Place::Url));
    let bar = b.bar.as_ref().expect("a bar");
    assert_eq!(bar.line.text(), "https://example.com/");
    assert!(bar.line.whole());

    write(&mut b, "example.org");
    let acts = b.handle_input(&pressed(Key::Enter, 0), NOW);
    assert_eq!(
        acts,
        vec![
            Act::Stir,
            Act::Navigate {
                target: "A".to_string(),
                url: "https://example.org".to_string()
            },
            Act::Redraw
        ]
    );
    assert!(b.bar.is_none());
    let tab = b.tabs.active().expect("a page");
    assert!(tab.loading);
    assert_eq!(tab.url, "https://example.org");
    assert_eq!(tab.line(), "loading https://example.org");

    b.handle_input(&pressed(Key::Char('l'), Mods::CTRL), NOW);
    let acts = b.handle_input(&pressed(Key::Escape, 0), NOW);
    assert_eq!(acts, vec![Act::Stir, Act::Redraw]);
    assert!(b.bar.is_none(), "escape leaves the page where it is");
}

#[test]
fn a_release_types_nothing_and_still_goes_to_the_page() {
    let mut b = browser(&["A"]);
    b.handle_input(&pressed(Key::Char('l'), Mods::CTRL), NOW);
    assert_eq!(b.handle_input(&let_go('x'), NOW), Vec::new());
    assert_eq!(
        b.bar.as_ref().expect("a bar").line.text(),
        "https://example.com/"
    );
    b.handle_input(&pressed(Key::Escape, 0), NOW);
    let acts = b.handle_input(&let_go('x'), NOW);
    assert_eq!(acts.len(), 1, "the page had it pressed, and hears it let go");
    assert!(
        matches!(&acts[0], Act::Tell { method, .. } if *method == "Input.dispatchKeyEvent"),
        "{acts:?}"
    );
}

#[test]
fn a_page_behind_a_dialog_is_not_clicked_or_scrolled_and_waits_for_its_answer() {
    let mut b = browser(&["A"]);
    assert!(!b.handle_input(&click(100, 100), NOW).is_empty());
    let acts = b.handle_input(&wheel(100, 100), NOW);
    assert!(
        acts.iter().any(|act| matches!(act, Act::Scroll { .. })),
        "{acts:?}"
    );
    b.tabs.list[0].dialog = Some(asked("confirm"));
    assert_eq!(b.handle_input(&click(100, 100), NOW), Vec::new());
    assert_eq!(b.handle_input(&wheel(100, 100), NOW), Vec::new());
    // What is done to the page waits; what leaves it does not.
    for (k, mods) in [
        (Key::Char('r'), Mods::CTRL),
        (Key::Char('l'), Mods::CTRL),
        (Key::Left, Mods::ALT),
    ] {
        assert_eq!(b.handle_input(&pressed(k, mods), NOW), vec![Act::Stir]);
    }
    assert_eq!(
        b.handle_input(&pressed(Key::Char('t'), Mods::CTRL), NOW),
        vec![Act::Stir, Act::OpenTab]
    );
    let acts = b.handle_input(&typed('y'), NOW);
    assert_eq!(acts.len(), 3, "{acts:?}");
    assert_eq!(
        acts[1],
        Act::Tell {
            target: "A".to_string(),
            method: "Page.handleJavaScriptDialog",
            params: Json::object(vec![("accept", Json::Bool(true))]),
        }
    );
    assert!(b.tabs.active().expect("a page").dialog.is_none());
}

#[test]
fn a_page_that_asked_to_be_left_and_was_told_no_is_where_it_was() {
    let mut b = browser(&["A"]);
    b.begin("https://elsewhere.example/");
    b.tabs.list[0].dialog = Some(asked("beforeunload"));
    let acts = b.handle_input(&pressed(Key::Escape, 0), NOW);
    assert!(
        acts.contains(&Act::CurrentUrl {
            target: "A".to_string()
        }),
        "{acts:?}"
    );
    let tab = b.tabs.active().expect("a page");
    assert!(!tab.loading);
    assert_eq!(tab.note, None);
    b.stayed(
        "A",
        &parse(r#"{"currentIndex":0,"entries":[{"id":1,"url":"https://example.com/"}]}"#),
    );
    assert_eq!(b.tabs.active().expect("a page").url, "https://example.com/");
}

#[test]
fn a_paste_goes_where_the_typing_is_and_decides_nothing() {
    let mut b = browser(&["A"]);
    let acts = b.handle_input(&Input::Paste("a\nb".to_string()), NOW);
    assert_eq!(
        acts,
        vec![
            Act::Stir,
            Act::Tell {
                target: "A".to_string(),
                method: "Input.insertText",
                params: Json::object(vec![("text", Json::string("a\nb"))]),
            }
        ],
        "the page gets the paste whole"
    );
    b.tabs.list[0].dialog = Some(alert());
    assert_eq!(
        b.handle_input(&Input::Paste("y\r".to_string()), NOW),
        vec![Act::Stir],
        "an alert takes no paste"
    );
    assert!(b.tabs.active().expect("a page").dialog.is_some());
    b.tabs.list[0].dialog = Some(asked("prompt"));
    b.handle_input(&Input::Paste("you\r\n".to_string()), NOW);
    let dialog = b.tabs.active().and_then(|tab| tab.dialog.as_ref());
    let line = &dialog.expect("still asked").line;
    assert!(line.text().starts_with("you"), "{:?}", line.text());
    assert!(!line.text().contains(['\r', '\n']));
    let acts = b.handle_input(
        &Input::PasteRefused {
            bytes: 200 * 1024,
        },
        NOW,
    );
    assert_eq!(acts, vec![Act::Redraw]);
    assert!(b.tabs.active().expect("a page").note.is_some());
}

#[test]
fn a_copy_of_the_url_is_written_to_the_terminal_and_the_row_says_how_much() {
    let mut b = browser(&["A"]);
    let acts = b.handle_input(&pressed(Key::Char('u'), Mods::ALT), NOW);
    assert_eq!(
        acts,
        vec![
            Act::Stir,
            Act::Write(osc52("https://example.com/").expect("short")),
            Act::Redraw
        ]
    );
    let note = b.tabs.active().and_then(|tab| tab.note.clone());
    assert!(!note.expect("a note").contains("example.com"));

    let acts = b.handle_input(&pressed(Key::Char('c'), Mods::ALT), NOW);
    assert_eq!(
        acts,
        vec![
            Act::Stir,
            Act::Selection {
                target: "A".to_string()
            }
        ]
    );
    let words = parse(r#"{"result":{"type":"string","value":"some words"}}"#);
    let acts = b.selected(Some(&words));
    assert!(
        acts.contains(&Act::Write(osc52("some words").expect("short"))),
        "{acts:?}"
    );
    let none = parse(r#"{"result":{"type":"string","value":""}}"#);
    let acts = b.selected(Some(&none));
    assert!(!acts.iter().any(|act| matches!(act, Act::Write(_))));
    assert_eq!(
        b.tabs.active().and_then(|tab| tab.note.as_deref()),
        Some("nothing selected")
    );
}

#[test]
fn closing_the_last_tab_quits_and_closing_one_of_two_does_not() {
    let close = pressed(Key::Char('w'), Mods::CTRL);
    let mut one = browser(&["A"]);
    assert_eq!(one.handle_input(&close, NOW), vec![Act::Stir, Act::Quit]);
    let mut two = browser(&["A", "B"]);
    assert_eq!(two.tabs.active_target().as_deref(), Some("B"));
    let acts = two.handle_input(&close, NOW);
    assert_eq!(
        acts,
        vec![
            Act::Stir,
            Act::CloseTarget {
                target: "B".to_string()
            },
            Act::Switched {
                was: Some("B".to_string())
            },
            Act::Redraw
        ]
    );
    assert_eq!(two.tabs.active_target().as_deref(), Some("A"));
}

#[test]
fn the_next_prompt_offers_the_last_needle_with_the_search_for_it() {
    let mut b = browser(&["A"]);
    let find = pressed(Key::Char('f'), Mods::CTRL);
    let acts = b.handle_input(&find, NOW);
    assert_eq!(
        acts,
        vec![
            Act::Stir,
            Act::World {
                target: "A".to_string()
            },
            Act::Pump,
            Act::Redraw
        ]
    );
    assert_eq!(b.place(), Some(Place::Find));
    b.make_world("A", Some(4));
    write(&mut b, "fox");
    b.handle_input(&pressed(Key::Escape, 0), NOW);
    assert!(b.find.is_none());
    assert_eq!(b.last_needle, "fox");
    b.handle_input(&find, NOW);
    b.make_world("A", Some(5));
    let offered = &b.find.as_ref().expect("a prompt").finder;
    assert_eq!(offered.line.text(), "fox");
    assert!(offered.line.whole());
    match b.next_search() {
        Next::Send(params) => assert_eq!(
            params
                .get("arguments")
                .and_then(Json::as_array)
                .and_then(|arguments| arguments[0].get("value"))
                .and_then(Json::as_str),
            Some("fox")
        ),
        other => panic!("{other:?}"),
    }
}

#[test]
fn keys_typed_while_a_search_is_out_are_one_search() {
    let mut b = browser(&["A"]);
    b.handle_input(&pressed(Key::Char('f'), Mods::CTRL), NOW);
    b.make_world("A", Some(4));
    write(&mut b, "f");
    assert!(matches!(b.next_search(), Next::Send(_)));
    assert!(!b.search_sent(Ok(11), NOW));
    write(&mut b, "ox");
    assert_eq!(b.next_search(), Next::Nothing, "one is out");
    let reply = Reply::Came(parse(
        r#"{"result":{"type":"object","value":[3,1,true,true]}}"#,
    ));
    assert_eq!(b.pump_find(&reply, NOW), (true, false));
    assert_eq!(
        b.find.as_ref().expect("a prompt").finder.count_text(),
        "1/3"
    );
    match b.next_search() {
        Next::Send(params) => {
            let wire = params.to_string();
            assert!(wire.contains("\"fox\""), "{wire}");
        }
        other => panic!("{other:?}"),
    }
    b.search_sent(Ok(12), NOW);
    assert_eq!(b.next_search(), Next::Nothing, "what was wanted has gone");
}

#[test]
fn a_world_that_went_is_made_again_once_and_then_reported() {
    let mut b = browser(&["A"]);
    b.handle_input(&pressed(Key::Char('f'), Mods::CTRL), NOW);
    b.make_world("A", Some(4));
    write(&mut b, "f");
    b.search_sent(Ok(11), NOW);
    let stale = Reply::Refused("Cannot find context with specified id".to_string());
    assert_eq!(b.pump_find(&stale, NOW), (false, true), "made again");
    b.make_world("A", Some(5));
    assert!(matches!(b.next_search(), Next::Send(_)), "and asked again");
    b.search_sent(Ok(12), NOW);
    let (redraw, remake) = b.pump_find(&stale, NOW);
    assert!(redraw && !remake, "the second refusal is a sentence");
    assert!(b.tabs.active().expect("a page").note.is_some());
    // The next search may have it made again, once.
    write(&mut b, "o");
    b.search_sent(Ok(13), NOW);
    assert_eq!(b.pump_find(&stale, NOW), (false, true));
}

#[test]
fn a_page_that_does_not_answer_is_given_up_unless_it_is_stopped() {
    let mut b = browser(&["A"]);
    b.handle_input(&pressed(Key::Char('f'), Mods::CTRL), NOW);
    b.make_world("A", Some(4));
    write(&mut b, "f");
    b.search_sent(Ok(11), NOW);
    b.tabs.list[0].dialog = Some(alert());
    let late = NOW + FIND_TIMEOUT + 1;
    assert_eq!(b.pump_find(&Reply::Nothing, late), (false, false));
    assert!(b.find.as_ref().expect("a prompt").pending.is_some());
    b.tabs.list[0].dialog = None;
    let later = late + FIND_TIMEOUT + 1;
    let (redraw, _) = b.pump_find(&Reply::Nothing, later);
    assert!(redraw);
    assert_eq!(
        b.tabs.active().and_then(|tab| tab.note.as_deref()),
        Some(NO_ANSWER)
    );
    // And a search that could not be sent at all is asked no more.
    write(&mut b, "o");
    assert!(b.search_sent(Err("the session ended".to_string()), later));
    assert_eq!(b.next_search(), Next::Nothing);
}

#[test]
fn a_switch_closes_the_prompt_and_remembers_its_needle() {
    let mut b = browser(&["A", "B"]);
    b.handle_input(&pressed(Key::Char('f'), Mods::CTRL), NOW);
    b.make_world("B", Some(4));
    write(&mut b, "fox");
    b.tabs.select_next();
    let acts = b.switched(Some("B".to_string()));
    assert!(b.find.is_none());
    assert_eq!(b.last_needle, "fox");
    assert!(
        acts.contains(&Act::Activate {
            target: "A".to_string()
        }),
        "{acts:?}"
    );
    // Nothing else in front is nothing to do.
    let front = b.tabs.active_target();
    assert_eq!(b.switched(front), Vec::new());
}

#[test]
fn a_path_for_a_file_input_is_sent_to_it_or_the_input_is_cancelled() {
    let mut b = browser(&["A"]);
    b.tabs.list[0].upload = Some(chooser());
    assert_eq!(b.place(), Some(Place::Upload));
    write(&mut b, "notes.txt");
    let acts = b.handle_input(&pressed(Key::Enter, 0), NOW);
    match &acts[1] {
        Act::Tell {
            target,
            method,
            params,
        } => {
            assert_eq!(target, "A");
            assert_eq!(*method, "DOM.setFileInputFiles");
            assert_eq!(params.get("backendNodeId").and_then(Json::as_i64), Some(7));
            let files = params
                .get("files")
                .and_then(Json::as_array)
                .expect("one path");
            assert_eq!(files.len(), 1);
            assert_eq!(files[0].as_str(), Some("/home/u/notes.txt"));
        }
        other => panic!("{other:?}"),
    }
    assert_eq!(b.upload_dir.as_deref(), Some("/home/u"));

    b.tabs.list[0].upload = Some(chooser());
    let acts = b.handle_input(&pressed(Key::Escape, 0), NOW);
    assert!(
        acts.contains(&Act::CancelChooser {
            target: "A".to_string(),
            node: 7
        }),
        "{acts:?}"
    );
    assert!(b.tabs.active().expect("a page").upload.is_none());
}

#[test]
fn a_page_that_did_not_come_is_navigated_to_again_and_any_other_is_reloaded() {
    let reload = pressed(Key::Char('r'), Mods::CTRL);
    let mut b = browser(&["A"]);
    assert_eq!(
        b.handle_input(&reload, NOW),
        vec![
            Act::Stir,
            Act::Reload {
                target: "A".to_string()
            }
        ]
    );
    b.tabs.list[0].problem = Some(Problem::Unreachable {
        url: "https://gone.example/".to_string(),
        code: "net::ERR_NAME_NOT_RESOLVED".to_string(),
    });
    let acts = b.handle_input(&reload, NOW);
    assert!(
        acts.contains(&Act::Navigate {
            target: "A".to_string(),
            url: "https://gone.example/".to_string()
        }),
        "{acts:?}"
    );
}

#[test]
fn an_answer_to_a_navigation_is_taken_once_and_for_the_page_it_was_sent_to() {
    let mut b = browser(&["A", "B"]);
    b.begin("https://gone.example/");
    b.navigation_sent(
        "B".to_string(),
        "https://gone.example/".to_string(),
        Ok(5),
    );
    let refused = Reply::Came(parse(
        r#"{"frameId":"F","errorText":"net::ERR_NAME_NOT_RESOLVED"}"#,
    ));
    let mut away = browser(&["A", "B"]);
    away.navigation_sent(
        "B".to_string(),
        "https://gone.example/".to_string(),
        Ok(5),
    );
    away.tabs.select_next();
    away.collect_navigation(&refused);
    assert_eq!(
        away.tabs.active().expect("a page").problem,
        None,
        "not pinned on the page in front"
    );

    b.collect_navigation(&refused);
    assert_eq!(
        b.tabs.active().expect("a page").problem,
        Some(Problem::Unreachable {
            url: "https://gone.example/".to_string(),
            code: "net::ERR_NAME_NOT_RESOLVED".to_string(),
        })
    );
    assert_eq!(b.navigation, None);
    assert_eq!(b.collect_navigation(&refused), Vec::new(), "taken once");
}

#[test]
fn a_second_navigation_drops_the_first_sent_or_not() {
    let mut b = browser(&["A"]);
    let go = |b: &mut Browser, sent| {
        b.navigation_sent("A".to_string(), "https://b.example/".to_string(), sent)
    };
    go(&mut b, Ok(5));
    go(&mut b, Ok(6));
    assert_eq!(b.navigation.as_ref().map(|out| out.ticket), Some(6));
    go(&mut b, Err("the pipe is closed".to_string()));
    assert_eq!(b.navigation, None);
    assert_eq!(
        b.tabs.active().and_then(|tab| tab.note.as_deref()),
        Some("the pipe is closed")
    );
}

#[test]
fn a_wheel_click_and_key_go_to_the_page_in_front_with_the_row_left_out() {
    let mut b = browser(&["A", "B"]);
    let acts = b.handle_input(&click(100, 100), NOW);
    match &acts[0] {
        Act::Tell { target, params, .. } => {
            assert_eq!(target, "B");
            assert_eq!(params.get("x").and_then(Json::as_i64), Some(100));
            assert_eq!(
                params.get("y").and_then(Json::as_i64),
                Some(84),
                "the row above is not the page's"
            );
        }
        other => panic!("{other:?}"),
    }
    assert_eq!(
        b.handle_input(&click(100, 3), NOW),
        Vec::new(),
        "a press on the row is not the page's"
    );
}

#[test]
fn the_pages_own_history_is_walked_by_one_entry() {
    let mut b = browser(&["A"]);
    assert_eq!(
        b.handle_input(&pressed(Key::Left, Mods::ALT), NOW),
        vec![
            Act::Stir,
            Act::Walk {
                target: "A".to_string(),
                delta: -1
            }
        ]
    );
    let history = parse(
        r#"{"currentIndex":1,"entries":[{"id":3,"url":"https://a/"},{"id":9,"url":"https://b/"}]}"#,
    );
    let acts = b.go(&history, -1);
    assert!(
        acts.iter().any(|act| matches!(act,
            Act::Tell { method, params, .. } | Act::Call { method, params, .. }
                if *method == "Page.navigateToHistoryEntry"
                    && params.get("entryId").and_then(Json::as_i64) == Some(3))),
        "{acts:?}"
    );
    let acts = b.go(&history, 1);
    assert!(
        !acts
            .iter()
            .any(|act| matches!(act, Act::Tell { .. } | Act::Call { .. })),
        "there is nothing after the last"
    );
}

#[test]
fn a_tab_that_was_made_comes_to_the_front_and_one_that_was_not_is_a_sentence() {
    let mut b = browser(&["A"]);
    b.open_tab(Ok("N".to_string()));
    assert_eq!(b.tabs.active_target().as_deref(), Some("N"));
    assert_eq!(b.tabs.len(), 2);
    b.open_tab(Err("no".to_string()));
    assert_eq!(b.tabs.len(), 2);
    assert!(b.tabs.active().expect("a page").note.is_some());
}

#[test]
fn a_navigation_that_was_a_file_draws_the_row_only_when_it_changed() {
    let mut b = browser(&["A"]);
    b.navigation_sent("A".to_string(), "https://a.example/f".to_string(), Ok(5));
    b.tabs.list[0].note = None;
    let said = b.tabs.list[0].line();
    let file = Reply::Came(parse(
        r#"{"frameId":"F","errorText":"net::ERR_ABORTED","isDownload":true}"#,
    ));
    let acts = b.collect_navigation(&file);
    assert_eq!(
        acts,
        vec![
            Act::CurrentUrl {
                target: "A".to_string()
            },
            Act::RedrawFrom { line: said.clone() }
        ]
    );
    assert!(b.says(&said), "nothing to draw");
    b.stayed(
        "A",
        &parse(r#"{"currentIndex":0,"entries":[{"id":1,"url":"https://other.example/"}]}"#),
    );
    assert!(!b.says(&said), "and now there is");
}

#[test]
fn what_was_wrong_is_said_until_the_navigation_goes() {
    let mut b = browser(&["A", "B"]);
    let front = b.tabs.front;
    let wrong = Problem::Unreachable {
        url: "https://gone.example/".to_string(),
        code: "net::ERR_NAME_NOT_RESOLVED".to_string(),
    };
    b.tabs.list[front].problem = Some(wrong);
    let acts = b.handle_input(&pressed(Key::Char('r'), Mods::CTRL), NOW);
    assert!(acts.contains(&Act::Redraw));
    assert!(b.tabs.list[front].problem.is_some(), "the first row drawn");
    b.navigation_sent("B".to_string(), "https://gone.example/".to_string(), Ok(5));
    assert!(b.tabs.list[front].problem.is_none(), "the second");
}
