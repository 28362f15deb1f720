use blinkterm::app::{Act, Browser};
use blinkterm::cdp::Event;
use blinkterm::double::Double;
use blinkterm::errands::{created, navigated};
use blinkterm::events::{ack_params, Ending, PageAct, Seen, Tidings};
use blinkterm::fit::Metrics;
use blinkterm::history::History;
use blinkterm::json::Json;
use blinkterm::load::{current_url, failed, landing, loaded, Landing, Loaded};
use blinkterm::tabs::{Problem, Tab, Tabs, TargetNews, CRASHED, NO_REASON};
use blinkterm::text::is_plain;
use blinkterm::upload::{cancel_chooser, resolve_params, start_dir, Upload, CANCEL_FUNCTION};

fn parse(text: &str) -> Json {
    Json::parse(text).expect("the test's own JSON")
}

fn event(method: &str, params: &str) -> Event {
    Event {
        method: method.to_string(),
        params: parse(params),
    }
}

fn browser(targets: &[&str]) -> Browser {
    let mut browser = Browser::new(
        Tab::new(targets[0], "https://a.example/"),
        History::in_memory(),
        None,
        Metrics {
            cols: 80,
            rows: 24,
            cell: (8, 16),
        },
        true,
    );
    for target in &targets[1..] {
        browser.tabs.open(Tab::new(target, "https://b.example/"));
    }
    browser
}

fn three() -> Tabs {
    let mut tabs = Tabs::new(Tab::new("A", "https://a/"));
    tabs.open(Tab::new("B", "https://b/"));
    tabs.open(Tab::new("C", "https://c/"));
    tabs
}

fn front(tabs: &Tabs) -> String {
    tabs.active_target().expect("a page in front")
}

/// What events after which nothing is asked came to.
fn read_all(b: &mut Browser, i: usize, events: &Vec<Event>) -> Seen {
    let (seen, read) = b.page_events(i, events, 0, Seen::new(), "/", None);
    assert_eq!(read, events.len());
    assert!(!seen.ask_url);
    seen
}

#[test]
fn tabs_go_round_and_back_and_are_chosen_by_number() {
    let mut tabs = three();
    assert_eq!(front(&tabs), "C");
    assert!(tabs.select_next());
    assert_eq!(front(&tabs), "A", "round to the first");
    assert!(tabs.select_previous());
    assert_eq!(front(&tabs), "C", "and back");
    assert!(tabs.select(2));
    assert_eq!(front(&tabs), "B");
    assert!(!tabs.select(2), "already there");
    assert!(!tabs.select(9), "there is no ninth");
    assert!(!tabs.select(0));
    assert_eq!(front(&tabs), "B");
    let mut one = Tabs::new(Tab::new("A", ""));
    assert!(!one.select_next());
    assert!(!one.select_previous());
}

#[test]
fn closing_a_tab_behind_leaves_the_one_in_front() {
    let mut tabs = three();
    assert_eq!(tabs.close(0).map(|tab| tab.target), Some("A".to_string()));
    assert_eq!(front(&tabs), "C");
    assert_eq!(tabs.close(7), None);
    tabs.open(Tab::new("D", ""));
    tabs.close(tabs.active_index());
    assert_eq!(front(&tabs), "C", "closing undoes opening");
    tabs.select(1);
    tabs.close(0);
    assert_eq!(front(&tabs), "C", "the one after it");
    tabs.close(0);
    assert!(tabs.is_empty());
    assert_eq!(tabs.active_target(), None);
}

#[test]
fn the_engines_news_of_its_pages_is_taken_once_for_each() {
    let mut tabs = three();
    let created = |id: &str, kind: &str| {
        event(
            "Target.targetCreated",
            &format!(r#"{{"targetInfo":{{"targetId":"{id}","type":"{kind}","url":"https://n/"}}}}"#),
        )
    };
    assert_eq!(
        tabs.take(&created("N", "page")),
        TargetNews::Connect {
            target: "N".to_string(),
            url: "https://n/".to_string()
        }
    );
    assert_eq!(tabs.take(&created("A", "page")), TargetNews::Ignored);
    assert_eq!(tabs.take(&created("W", "worker")), TargetNews::Ignored);
    let changed = |id: &str, url: &str| {
        event(
            "Target.targetInfoChanged",
            &format!(r#"{{"targetInfo":{{"targetId":"{id}","type":"page","url":"{url}"}}}}"#),
        )
    };
    assert_eq!(tabs.take(&changed("A", "https://a/2")), TargetNews::Renamed);
    assert_eq!(tabs.list[0].url, "https://a/2");
    assert_eq!(tabs.take(&changed("A", "https://a/2")), TargetNews::Ignored);
    assert_eq!(
        tabs.take(&changed("A", "chrome-error://chromewebdata/")),
        TargetNews::Ignored
    );
    assert_eq!(
        tabs.take(&event("Target.targetDestroyed", r#"{"targetId":"B"}"#)),
        TargetNews::Gone {
            target: "B".to_string(),
            why: None
        }
    );
    assert_eq!(
        tabs.take(&event("Target.targetCrashed", r#"{"targetId":"C"}"#)),
        TargetNews::Gone {
            target: "C".to_string(),
            why: Some(CRASHED.to_string())
        }
    );
    assert_eq!(
        tabs.take(&event("Target.targetDestroyed", r#"{"targetId":"C"}"#)),
        TargetNews::Ignored
    );
    assert_eq!(tabs.len(), 1);
    assert_eq!(tabs.take(&event("Something.else", "{}")), TargetNews::Ignored);
}

#[test]
fn what_a_row_says_of_a_page_is_plain_whatever_the_page_calls_itself() {
    let mut tab = Tab::new("A", "https://a/\u{1b}]0;x\u{7}");
    tab.title = "evil\u{202e}\u{1b}[2J\ntitle".to_string();
    for words in [tab.line(), tab.label()] {
        assert!(words.chars().all(is_plain), "{words:?}");
        assert!(words.contains("evil"), "{words:?}");
    }
    tab.failed_to_reach("https://gone/", "net::ERR_NAME_NOT_RESOLVED");
    assert_eq!(
        tab.line(),
        "cannot reach https://gone/: net::ERR_NAME_NOT_RESOLVED"
    );
    assert_eq!(tab.label(), "cannot reach https://gone/");
}

#[test]
fn a_page_that_did_not_come_keeps_its_reason_until_it_goes_somewhere() {
    let mut tab = Tab::new("A", "https://a/");
    tab.failed_to_reach("https://gone/", "net::ERR_X");
    tab.landed(Landing {
        url: "https://gone/".to_string(),
        came: false,
    });
    let reason = Problem::Unreachable {
        url: "https://gone/".to_string(),
        code: "net::ERR_X".to_string(),
    };
    assert_eq!(tab.problem, Some(reason));
    tab.loaded(Loaded {
        title: "This site can't be reached".to_string(),
        status: Some(200),
    });
    assert!(matches!(tab.problem, Some(Problem::Unreachable { .. })));
    tab.landed(Landing {
        url: "https://other/".to_string(),
        came: false,
    });
    assert_eq!(
        tab.problem,
        Some(Problem::Unreachable {
            url: "https://other/".to_string(),
            code: NO_REASON.to_string()
        })
    );
    tab.landed(Landing {
        url: "https://here/".to_string(),
        came: true,
    });
    assert_eq!(tab.problem, None);
    tab.loaded(Loaded {
        title: "Not here".to_string(),
        status: Some(404),
    });
    assert_eq!(tab.problem, Some(Problem::Status(404)));
    assert_eq!(tab.line(), "404  Not here  —  https://here/");
}

#[test]
fn a_load_and_a_landing_are_read_off_what_the_engine_says() {
    assert_eq!(
        loaded(&parse(r#"{"result":{"type":"object","value":["A title",404]}}"#)),
        Some(Loaded {
            title: "A title".to_string(),
            status: Some(404)
        })
    );
    assert_eq!(
        loaded(&parse(r#"{"result":{"value":["A title",0]}}"#)).map(|l| l.status),
        Some(None),
        "a page that came from no server has no status"
    );
    assert_eq!(loaded(&parse(r#"{"result":{"value":"x"}}"#)), None);
    assert_eq!(
        landing(&parse(
            r##"{"frame":{"id":"F","url":"https://a/","urlFragment":"#top"}}"##
        )),
        Some(Landing {
            url: "https://a/#top".to_string(),
            came: true
        })
    );
    assert_eq!(
        landing(&parse(
            r#"{"frame":{"id":"F","url":"chrome-error://x/","unreachableUrl":"https://a/"}}"#
        )),
        Some(Landing {
            url: "https://a/".to_string(),
            came: false
        })
    );
    assert_eq!(
        landing(&parse(r#"{"frame":{"id":"G","parentId":"F","url":"https://ad/"}}"#)),
        None,
        "a frame inside the page is not the page"
    );
    assert_eq!(
        failed(&parse(r#"{"errorText":"net::ERR_X"}"#)),
        Some("net::ERR_X".to_string())
    );
    assert_eq!(failed(&parse(r#"{"errorText":"net::ERR_ABORTED"}"#)), None);
    assert_eq!(failed(&parse(r#"{"frameId":"F"}"#)), None);
    assert_eq!(
        current_url(&parse(
            r#"{"currentIndex":1,"entries":[{"url":"https://a/"},{"url":"https://b/"}]}"#
        )),
        Some("https://b/".to_string())
    );
    assert_eq!(current_url(&parse(r#"{"currentIndex":1,"entries":[]}"#)), None);
}

#[test]
fn every_frame_is_acknowledged_and_only_the_page_in_front_is_painted() {
    let frame = r#"{"data":"aGk=","sessionId":3,"metadata":{"timestamp":12.5}}"#;
    let events = vec![event("Page.screencastFrame", frame)];
    let mut b = browser(&["A", "B"]);
    let behind = read_all(&mut b, 0, &events);
    assert_eq!(behind.acts, vec![PageAct::Ack { session: 3 }]);
    let seen = read_all(&mut b, 1, &events);
    assert_eq!(
        seen.acts,
        vec![
            PageAct::Ack { session: 3 },
            PageAct::Frame {
                data: "aGk=".to_string(),
                stamp: Some(Double {
                    negative: false,
                    mantissa: 25 << 48,
                    exponent: -49
                })
            }
        ]
    );
    assert!(!seen.redraw);
    assert_eq!(
        ack_params(3),
        Json::object(vec![("sessionId", Json::number(3))])
    );
}

#[test]
fn a_page_that_loaded_is_asked_its_name_unless_it_is_stopped() {
    let mut b = browser(&["A"]);
    let load = event("Page.loadEventFired", r#"{"timestamp":1}"#);
    let opening = r#"{"url":"https://a/","message":"?","type":"alert","defaultPrompt":""}"#;
    let seen = read_all(&mut b, 0, &vec![event("Page.loadEventFired", "{}")]);
    assert!(seen.ask_title && seen.redraw);
    let seen = read_all(
        &mut b,
        0,
        &vec![load, event("Page.javascriptDialogOpening", opening)],
    );
    assert!(!seen.ask_title, "a stopped page would not answer");
    assert!(b.tabs.list[0].dialog.is_some());
    let closed = event("Page.javascriptDialogClosed", r#"{"result":true}"#);
    let seen = read_all(&mut b, 0, &vec![closed]);
    assert!(seen.ask_title);
    assert!(b.tabs.list[0].dialog.is_none());
}

#[test]
fn a_queue_that_is_thrown_away_keeps_its_question() {
    let mut b = browser(&["A", "B"]);
    let opening = r#"{"url":"https://a/","message":"?","type":"confirm","defaultPrompt":""}"#;
    b.bin_events(
        0,
        &vec![
            event("Page.screencastFrame", r#"{"data":"x","sessionId":1}"#),
            event("Page.javascriptDialogOpening", opening),
        ],
        "/",
        None,
    );
    assert!(b.tabs.list[0].dialog.is_some());
}

#[test]
fn a_page_that_came_is_a_visit_and_one_that_did_not_is_none() {
    let report = || Loaded {
        title: "A title".to_string(),
        status: Some(200),
    };
    let mut b = browser(&["A"]);
    b.page_named(0, report(), 5);
    assert_eq!(b.history.entries().len(), 1);
    assert_eq!(b.history.entries()[0].url, "https://a.example/");
    assert_eq!(b.history.entries()[0].title, "A title");
    let mut b = browser(&["A"]);
    b.tabs.list[0].failed_to_reach("https://gone/", "net::ERR_X");
    assert_eq!(b.page_named(0, report(), 5), None);
    assert_eq!(b.history.entries().len(), 0);
}

#[test]
fn a_page_whose_session_ended_goes_and_the_one_in_front_stays() {
    let mut b = browser(&["A", "B", "C"]);
    let acts = b.reap_dead_tabs(&vec![true, false, false]);
    assert_eq!(b.tabs.active_target().as_deref(), Some("C"));
    assert_eq!(b.tabs.len(), 2);
    assert!(
        acts.iter().all(|act| !matches!(act, Act::Activate { .. })),
        "{acts:?}"
    );
    assert_eq!(b.reap_dead_tabs(&vec![false, false]), Vec::new());
    b.reap_dead_tabs(&vec![false, true]);
    assert_eq!(b.tabs.active_target().as_deref(), Some("B"));
}

#[test]
fn the_last_page_gone_ends_the_run_with_a_sentence_when_there_is_one() {
    let mut b = browser(&["A"]);
    let (_, ending) = b.settle(Some("A".to_string()), Tidings::new());
    assert_eq!(ending, Ending::Goes);
    b.tabs.close(0);
    let mut closed = Tidings::new();
    closed.gone(None);
    assert_eq!(b.settle(Some("A".to_string()), closed).1, Ending::Clean);
    let mut crashed = Tidings::new();
    crashed.gone(Some(CRASHED.to_string()));
    match b.settle(Some("A".to_string()), crashed).1 {
        Ending::Sorry(why) => assert!(why.contains(CRASHED), "{why}"),
        other => panic!("{other:?}"),
    }
}

#[test]
fn a_navigation_that_became_a_download_leaves_the_page_where_it_is() {
    let mut tab = Tab::new("A", "https://a/file.zip");
    tab.loading = true;
    let reply = parse(r#"{"frameId":"F","errorText":"net::ERR_ABORTED","isDownload":true}"#);
    let stays = navigated(&mut tab, "https://a/file.zip", &reply);
    assert_eq!(tab.problem, None);
    assert!(stays, "the engine is asked where the page is");
    let mut tab = Tab::new("A", "https://gone/");
    tab.loading = true;
    let reply = parse(r#"{"frameId":"F","errorText":"net::ERR_X"}"#);
    assert!(!navigated(&mut tab, "https://gone/", &reply));
    assert!(matches!(tab.problem, Some(Problem::Unreachable { .. })));
    assert!(!tab.loading);
}

#[test]
fn a_target_that_was_made_is_named() {
    assert_eq!(created(&parse(r#"{"targetId":"N"}"#)), Ok("N".to_string()));
    assert!(created(&parse("{}")).is_err());
}

#[test]
fn a_path_is_from_where_the_last_one_was_and_a_tilde_is_home() {
    assert_eq!(start_dir(Some("/last"), Some("/cwd"), Some("/home/u")), "/last");
    assert_eq!(start_dir(None, Some("/cwd"), Some("/home/u")), "/cwd");
    assert_eq!(start_dir(None, None, Some("/home/u")), "/home/u");
    let params = parse(r#"{"frameId":"F","mode":"selectMultiple","backendNodeId":7}"#);
    let mut upload = Upload::opened(&params, "/base", Some("/home/u")).expect("an input");
    assert_eq!(upload.prompt(), "files:");
    for (typed, path, dir) in [
        ("a.txt", "/base/a.txt", "/base"),
        ("/etc/hosts", "/etc/hosts", "/etc"),
        ("~/b.txt", "/home/u/b.txt", "/home/u"),
        ("~", "/home/u", "/home"),
        ("/top", "/top", "/"),
    ] {
        upload.line.set_text(typed);
        assert_eq!(upload.path(), path, "{typed}");
        assert_eq!(upload.last_dir(), dir, "{typed}");
        assert_eq!(upload.sentence(), format!("sent {path}"));
    }
    assert_eq!(Upload::opened(&parse("{}"), "/", None), None);
}

#[test]
fn an_input_that_is_cancelled_is_told_so_and_let_go() {
    assert_eq!(
        resolve_params(7).get("backendNodeId").and_then(Json::as_i64),
        Some(7)
    );
    let calls = cancel_chooser(&parse(r#"{"object":{"objectId":"O"}}"#));
    assert_eq!(calls[0].0, "Runtime.callFunctionOn");
    assert_eq!(
        calls[0].1.get("functionDeclaration").and_then(Json::as_str),
        Some(CANCEL_FUNCTION)
    );
    assert!(calls
        .iter()
        .all(|(_, params)| params.get("objectId").and_then(Json::as_str) == Some("O")));
    assert!(cancel_chooser(&parse("{}")).is_empty());
}

#[test]
fn a_landing_behind_a_refused_leave_has_the_last_word() {
    let mut b = browser(&["A"]);
    let opening = r#"{"url":"https://a/","message":"","type":"beforeunload","defaultPrompt":""}"#;
    let landed = r#"{"frame":{"id":"F","url":"https://landed.example/"}}"#;
    let events = vec![
        event("Page.screencastFrame", r#"{"data":"aGk=","sessionId":3}"#),
        event("Page.javascriptDialogOpening", opening),
        event("Page.javascriptDialogClosed", r#"{"result":false}"#),
        event("Page.frameNavigated", landed),
        event("Page.screencastFrame", r#"{"data":"aGk=","sessionId":4}"#),
    ];
    let (seen, read) = b.page_events(0, &events, 0, Seen::new(), "/", None);
    assert!(seen.ask_url);
    assert_eq!(read, 3, "nothing behind the refusal yet");
    assert_eq!(seen.acts[0], PageAct::Ack { session: 3 });
    let history = r#"{"currentIndex":0,"entries":[{"id":1,"url":"https://stayed.example/"}]}"#;
    b.stayed("A", &parse(history));
    assert_eq!(b.tabs.list[0].url, "https://stayed.example/");
    let (seen, read) = b.page_events(0, &events, read, seen, "/", None);
    assert!(!seen.ask_url);
    assert_eq!(read, 5);
    assert!(seen.redraw && seen.ask_title, "of all of them");
    assert_eq!(seen.acts[0], PageAct::Ack { session: 4 }, "each is asked for once");
    assert_eq!(b.tabs.list[0].url, "https://landed.example/");
}
