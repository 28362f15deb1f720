use blinkterm::address::{destination, normalise};
use blinkterm::app::{copied, Copied};
use blinkterm::bar::{bar_step, paste_into_dialog, paste_into_line, UrlBar};
use blinkterm::dialog::{Answer, Dialog};
use blinkterm::errands::{page_cells, page_pixels};
use blinkterm::fit::{Cells, Metrics};
use blinkterm::history::History;
use blinkterm::input::{Key, KeyAction, KeyInput, Mods};
use blinkterm::json::Json;
use blinkterm::keys::{command, survives_dialog, Command};
use blinkterm::line::{Edit, Line};
use blinkterm::mouse::{button_bit, button_name, Clicks};
use blinkterm::row::{row_owner, typing_row_beside, RowOwner};
use blinkterm::screen::prompt_line;
use blinkterm::tabs::{Tab, Tabs};
use blinkterm::upload::{Chooser, Upload};

/// When the presses of a test are made.
const NOW: u64 = 1_000_000_000;

fn key(k: Key, mods: u32) -> KeyInput {
    KeyInput {
        key: k,
        mods: Mods(mods),
        action: KeyAction::Press,
        text: None,
    }
}

#[test]
fn the_programs_own_keys_and_nothing_else() {
    assert_eq!(
        command(&key(Key::Char('q'), Mods::CTRL)),
        Some(Command::Quit)
    );
    assert_eq!(
        command(&key(Key::Char('l'), Mods::CTRL)),
        Some(Command::EditUrl)
    );
    assert_eq!(
        command(&key(Key::Char('r'), Mods::CTRL)),
        Some(Command::Reload)
    );
    assert_eq!(command(&key(Key::Left, Mods::ALT)), Some(Command::Back));
    assert_eq!(command(&key(Key::Right, Mods::ALT)), Some(Command::Forward));

    // Everything else belongs to the page.
    assert_eq!(command(&key(Key::Char('q'), 0)), None);
    assert_eq!(command(&key(Key::Char('l'), Mods::ALT)), None);
    assert_eq!(command(&key(Key::Left, Mods::CTRL)), None);
    assert_eq!(command(&key(Key::Char('a'), Mods::CTRL)), None);
    assert_eq!(command(&key(Key::Tab, 0)), None, "tab is the page's");

    // And a release of one of them is not a second command.
    let mut released = key(Key::Char('q'), Mods::CTRL);
    released.action = KeyAction::Release;
    assert_eq!(command(&released), None);
}

#[test]
fn the_tab_keys_are_the_ones_a_browser_taught_and_the_compositor_left() {
    assert_eq!(
        command(&key(Key::Char('t'), Mods::CTRL)),
        Some(Command::NewTab)
    );
    assert_eq!(
        command(&key(Key::Char('w'), Mods::CTRL)),
        Some(Command::CloseTab)
    );
    assert_eq!(command(&key(Key::Tab, Mods::CTRL)), Some(Command::NextTab));
    assert_eq!(
        command(&key(Key::Tab, Mods::CTRL | Mods::SHIFT)),
        Some(Command::PreviousTab)
    );
    for n in 1..=9usize {
        let digit = Key::Char((b'0' + n as u8) as char);
        assert_eq!(
            command(&key(digit, Mods::ALT)),
            Some(Command::SelectTab(n)),
            "alt+{n}"
        );
    }
    // There is no tab zero, and a digit on its own is typing.
    assert_eq!(command(&key(Key::Char('0'), Mods::ALT)), None);
    assert_eq!(command(&key(Key::Char('1'), 0)), None);
    // ctrl+digit stays the page's: a page may bind it, and the compositor
    // puts its own workspace digits on ctrl+shift and on super.
    assert_eq!(command(&key(Key::Char('1'), Mods::CTRL)), None);
    // alt+tab is the window manager's everywhere, and is not taken here.
    assert_eq!(command(&key(Key::Tab, Mods::ALT)), None);
}

#[test]
fn the_tab_keys_and_quit_survive_a_dialog_and_the_rest_wait() {
    let survives = |k: Key, mods: u32| command(&key(k, mods)).map(survives_dialog);
    // Away from the question, or out of the program.
    assert_eq!(survives(Key::Char('q'), Mods::CTRL), Some(true));
    assert_eq!(survives(Key::Char('t'), Mods::CTRL), Some(true));
    assert_eq!(survives(Key::Char('w'), Mods::CTRL), Some(true));
    assert_eq!(survives(Key::Tab, Mods::CTRL), Some(true));
    assert_eq!(survives(Key::Tab, Mods::CTRL | Mods::SHIFT), Some(true));
    for n in 1..=9u8 {
        assert_eq!(
            survives(Key::Char((b'0' + n) as char), Mods::ALT),
            Some(true)
        );
    }
    // Things done to the page that is asking wait until it has an answer.
    assert_eq!(survives(Key::Char('l'), Mods::CTRL), Some(false));
    assert_eq!(survives(Key::Char('r'), Mods::CTRL), Some(false));
    assert_eq!(survives(Key::Left, Mods::ALT), Some(false));
    assert_eq!(survives(Key::Right, Mods::ALT), Some(false));
    // And a key that is not the program's is not a command at all: it is
    // what answers the dialog.
    assert_eq!(survives(Key::Char('y'), 0), None);
    assert_eq!(survives(Key::Enter, 0), None);
    assert_eq!(survives(Key::Escape, 0), None);
}

#[test]
fn the_tab_keys_and_quit_survive_an_upload_prompt_and_the_rest_wait() {
    // The same set as a dialog's, and the same reasons: see
    // `survives_dialog`. Checked here from the upload's side so that a
    // change to one is a decision about both.
    let survives = |k: Key, mods: u32| command(&key(k, mods)).map(survives_dialog);
    for (k, mods) in [
        (Key::Char('q'), Mods::CTRL),
        (Key::Char('t'), Mods::CTRL),
        (Key::Char('w'), Mods::CTRL),
        (Key::Tab, Mods::CTRL),
        (Key::Char('2'), Mods::ALT),
        (Key::Char('u'), Mods::ALT),
    ] {
        assert_eq!(survives(k, mods), Some(true), "{k:?}");
    }
    for (k, mods) in [
        (Key::Char('l'), Mods::CTRL),
        (Key::Char('r'), Mods::CTRL),
        (Key::Left, Mods::ALT),
        (Key::Right, Mods::ALT),
    ] {
        assert_eq!(survives(k, mods), Some(false), "{k:?}");
    }
    // Tab, Enter and Escape are the path's.
    assert_eq!(survives(Key::Tab, 0), None);
    assert_eq!(survives(Key::Enter, 0), None);
    assert_eq!(survives(Key::Escape, 0), None);
}

#[test]
fn the_row_goes_to_the_url_bar_then_a_dialog_then_a_file_input() {
    let owner = |tabs: &Tabs, bar: Option<&UrlBar>| match row_owner(tabs, bar, None) {
        Some(RowOwner::Bar(_)) => "bar",
        Some(RowOwner::Find(_)) => "find",
        Some(RowOwner::Dialog(_)) => "dialog",
        Some(RowOwner::Upload(_)) => "upload",
        None => "page",
    };
    let mut tabs = Tabs::new(Tab::new("a", "https://a.example/"));
    let bar = UrlBar::new(Line::empty());
    assert_eq!(owner(&tabs, None), "page");

    let chooser = Chooser {
        backend_node_id: 3,
        multiple: false,
        frame_id: "F".to_string(),
    };
    let front = tabs.active_index();
    let tab = &mut tabs.list[front];
    tab.upload = Some(Upload::new(chooser, "/work".to_string(), None));
    assert_eq!(owner(&tabs, None), "upload");
    assert_eq!(owner(&tabs, Some(&bar)), "bar", "the person's typing first");

    // An alert while the path is half typed: the page is stopped, so the
    // alert has the row, and the path is underneath it.
    let alert = Json::parse(r#"{"type":"alert","message":"m","url":"u"}"#).expect("JSON");
    let front = tabs.active_index();
    let tab = &mut tabs.list[front];
    tab.dialog = Dialog::opening(&alert);
    assert_eq!(owner(&tabs, None), "dialog");
    assert_eq!(owner(&tabs, Some(&bar)), "bar");
    let front = tabs.active_index();
    let tab = &mut tabs.list[front];
    tab.dialog = None;
    assert_eq!(owner(&tabs, None), "upload", "and back when it is answered");

    // A tab behind with a prompt does not own the row in front.
    tabs.open(Tab::new("b", "https://b.example/"));
    assert_eq!(owner(&tabs, None), "page");
}

#[test]
fn copying_is_alt_c_and_alt_u_and_ctrl_c_and_ctrl_v_stay_the_pages() {
    assert_eq!(
        command(&key(Key::Char('c'), Mods::ALT)),
        Some(Command::CopySelection)
    );
    assert_eq!(
        command(&key(Key::Char('u'), Mods::ALT)),
        Some(Command::CopyUrl)
    );
    // The engine's own copy and paste, within the page.
    assert_eq!(command(&key(Key::Char('c'), Mods::CTRL)), None);
    assert_eq!(command(&key(Key::Char('v'), Mods::CTRL)), None);
    assert_eq!(command(&key(Key::Char('v'), Mods::ALT)), None);
    assert_eq!(command(&key(Key::Char('c'), Mods::CTRL | Mods::ALT)), None);
    assert_eq!(command(&key(Key::Char('c'), 0)), None);

    // The url is this program's to copy whatever the page is doing; the
    // selection has to be asked of a page that may be stopped.
    assert!(survives_dialog(Command::CopyUrl));
    assert!(!survives_dialog(Command::CopySelection));
}

#[test]
fn ctrl_f_is_find_and_does_not_survive_a_dialog() {
    assert_eq!(
        command(&key(Key::Char('f'), Mods::CTRL)),
        Some(Command::Find)
    );
    // It asks the page, and a page behind a dialog answers nothing.
    assert!(!survives_dialog(Command::Find));
    // Only ctrl: `f` is typing, and the others are the page's.
    assert_eq!(command(&key(Key::Char('f'), 0)), None);
    assert_eq!(command(&key(Key::Char('f'), Mods::ALT)), None);
    assert_eq!(command(&key(Key::Char('f'), Mods::CTRL | Mods::ALT)), None);
    // The prompt's own next and previous are the prompt's, not commands
    // a page loses when it is closed.
    assert_eq!(command(&key(Key::Char('g'), Mods::CTRL)), None);
}

#[test]
fn the_find_prompt_draws_its_count_at_the_end_and_the_url_bar_is_unchanged() {
    let line = Line::selected("fox");
    assert_eq!(
        typing_row_beside(40, "url: ", &line, ""),
        prompt_line(40, "url: ", "fox", "", 3)
    );
    let row = String::from_utf8(typing_row_beside(40, "find: ", &line, "3/17"))
        .expect("a row is UTF-8");
    assert!(row.contains("find: fox "), "{row:?}");
    assert!(row.contains("  3/17\x1b[0m"), "{row:?}");
    assert!(row.ends_with("\x1b[1;10H\x1b[?25h"), "{row:?}");
}

#[test]
fn a_paste_into_a_line_is_one_line_and_replaces_what_was_offered() {
    let mut line = Line::selected("https://example.com/offered");
    assert!(paste_into_line(&mut line, "https://pasted.example/\r\n"));
    assert_eq!(line.text(), "https://pasted.example/");
    assert!(paste_into_line(&mut line, "a\tb\x1b[2J"));
    assert_eq!(line.text(), "https://pasted.example/ab[2J");
    // A paste that is nothing once it is one line changes nothing, and
    // leaves the line still offered whole.
    let mut line = Line::selected("offered");
    assert!(!paste_into_line(&mut line, "\r\n"));
    assert_eq!(line.text(), "offered");
    assert!(line.whole());
}

#[test]
fn a_prompt_takes_a_paste_and_the_other_dialogs_do_not() {
    let asked = |kind: &str| {
        Dialog::opening(
            &Json::parse(&format!(
                r#"{{"type":"{kind}","message":"m","url":"u","defaultPrompt":"default"}}"#
            ))
            .expect("the test's own JSON"),
        )
        .expect("a dialog")
    };
    let mut prompt = asked("prompt");
    assert!(paste_into_dialog(&mut prompt, "pasted\n"));
    assert_eq!(prompt.line.text(), "pasted", "over the default, as a key");
    assert!(!prompt.line.whole());
    assert!(paste_into_dialog(&mut prompt, " more"));
    assert_eq!(prompt.line.text(), "pasted more");
    // And it is still a question waiting on a key: a paste is not Enter.
    assert_eq!(
        prompt.step(&key(Key::Char('x'), Mods::SHIFT)),
        Answer::Waiting
    );

    for kind in ["alert", "confirm", "beforeunload"] {
        let mut dialog = asked(kind);
        let before = dialog.clone();
        assert!(!paste_into_dialog(&mut dialog, "y\n"), "{kind}");
        assert_eq!(dialog, before, "{kind}");
    }
}

#[test]
fn a_copy_says_how_much_and_never_what() {
    assert_eq!(copied("https://example.com", Copied::Url), "copied url");
    assert_eq!(copied("日本語", Copied::Text), "copied 3 characters");
    assert_eq!(copied("a", Copied::Text), "copied 1 character");
    assert!(!copied("\x1b]0;secret\x07", Copied::Text).contains("secret"));
}

#[test]
fn what_a_person_types_becomes_a_url_the_engine_takes() {
    assert_eq!(normalise("example.com"), "https://example.com");
    assert_eq!(
        normalise("example.com:8443/a"),
        "https://example.com:8443/a"
    );
    assert_eq!(normalise("  example.com/a b "), "https://example.com/a b");
    assert_eq!(normalise("http://example.com"), "http://example.com");
    assert_eq!(normalise("https://example.com"), "https://example.com");
    assert_eq!(normalise("about:blank"), "about:blank");
    assert_eq!(normalise("data:text/html,hi"), "data:text/html,hi");
    assert_eq!(normalise("/etc/hostname"), "file:///etc/hostname");
    assert_eq!(normalise(""), "about:blank");
    assert_eq!(normalise("   "), "about:blank");
    // A paste is plain text before it is a url: what is sent is what is
    // shown, and neither can be an override or an escape.
    assert_eq!(normalise("exa\u{202e}mple.com"), "https://example.com");
    assert_eq!(
        normalise("\x1b]0;x\x07example.com"),
        "https://]0;xexample.com"
    );
    assert_eq!(normalise("example.com\r\n"), "https://example.com");
    // This machine has no certificate: plain http, port or no port.
    for local in [
        "localhost",
        "localhost:3000",
        "LocalHost:3000/app",
        "app.localhost/x",
        "127.0.0.1:8000/",
        "127.1.2.3",
        "[::1]:8080",
        "[::1]",
    ] {
        assert_eq!(normalise(local), format!("http://{local}"), "{local}");
    }
    // A name that only starts like one is somebody else's machine.
    for remote in [
        "localhost.example.com",
        "mylocalhost",
        "127.0.0.1.example.com",
        "128.0.0.1",
        "[::2]",
    ] {
        assert_eq!(normalise(remote), format!("https://{remote}"), "{remote}");
    }
    // And a scheme typed is a scheme kept.
    assert_eq!(
        normalise("https://localhost:3000"),
        "https://localhost:3000"
    );
}

/// What is typed, and whether a search url makes it a search.
const TYPED: [(&str, bool); 24] = [
    ("example.com", false),
    ("example.com/a b", true),
    ("rust borrow checker", true),
    ("rust", true),
    ("what?", true),
    ("3.14", true),
    ("foo.123", true),
    (".com", true),
    ("a..b", true),
    ("\u{4f8b}\u{3048}.jp", false),
    ("a.b/c?d", false),
    ("my-site.co.uk", false),
    ("192.168.1.1", false),
    ("192.168.1.300", true),
    ("localhost", false),
    ("localhost:3000", false),
    ("app.localhost", false),
    ("[::1]:8080", false),
    ("[2001:db8::1]", false),
    ("myhost:8080", false),
    ("https://example.com/?q=a b", false),
    ("about:blank", false),
    ("/etc/hostname", false),
    ("", false),
];

#[test]
fn with_a_search_url_words_are_searched_and_hosts_are_still_hosts() {
    let search = Some("https://search.example/?q=%s&x=%s");
    for (typed, words) in TYPED {
        let went = destination(typed, search);
        if words {
            assert!(
                went.starts_with("https://search.example/?q="),
                "{typed:?}: {went}"
            );
            assert!(went.ends_with("&x=%s"), "the first %s only: {went}");
        } else {
            assert_eq!(went, normalise(typed), "{typed:?}");
        }
    }
    assert_eq!(
        destination("  a b&c  ", search),
        "https://search.example/?q=a%20b%26c&x=%s"
    );
    assert_eq!(
        destination("caf\u{e9}?", Some("https://s.example/%s")),
        "https://s.example/caf%C3%A9%3F"
    );
    // What is searched is the plain text of it, as what is sent always is.
    assert_eq!(
        destination("a\u{202e} b", Some("https://s.example/%s")),
        "https://s.example/a%20b"
    );
}

#[test]
fn without_a_search_url_nothing_typed_leaves_for_a_third_party() {
    for (typed, _) in TYPED {
        assert_eq!(destination(typed, None), normalise(typed), "{typed:?}");
    }
    assert_eq!(destination("rust", None), "https://rust");
}

fn typed(c: char) -> KeyInput {
    KeyInput {
        key: Key::Char(c),
        mods: Mods::default(),
        action: KeyAction::Press,
        text: Some(c),
    }
}

#[test]
fn the_url_bar_offers_what_was_visited_and_walks_it_with_up_and_down() {
    let mut history = History::in_memory();
    let _ = history.visited("https://example.com/docs", "Docs", 1);
    let _ = history.visited("https://rust-lang.org/", "Rust", 2);
    let mut bar = UrlBar::new(Line::selected("https://old.example/"));

    // Typing over the offered url asks for a suggestion.
    for c in "exa".chars() {
        assert_eq!(bar_step(&mut bar, &history, &typed(c)), Edit::Inserted);
    }
    assert_eq!(bar.line.text(), "exa");
    assert_eq!(bar.line.hint(), "mple.com/docs");
    // A backspace takes it away and does not bring it back.
    bar_step(&mut bar, &history, &key(Key::Backspace, 0));
    assert_eq!(bar.line.text(), "ex");
    assert_eq!(bar.line.hint(), "");
    // Typing again does, and Tab takes it.
    bar_step(&mut bar, &history, &typed('a'));
    bar_step(&mut bar, &history, &key(Key::Tab, 0));
    assert_eq!(bar.line.text(), "example.com/docs");
    assert_eq!(bar.line.hint(), "");

    // Up on an empty bar walks back through where you have been, and Down
    // comes back to what was typed.
    let mut bar = UrlBar::new(Line::empty());
    bar_step(&mut bar, &history, &key(Key::Up, 0));
    assert_eq!(bar.line.text(), "https://rust-lang.org/");
    assert_eq!(bar.line.hint(), "", "no suggestion while walking");
    bar_step(&mut bar, &history, &key(Key::Up, 0));
    assert_eq!(bar.line.text(), "https://example.com/docs");
    bar_step(&mut bar, &history, &key(Key::Up, 0));
    assert_eq!(bar.line.text(), "https://example.com/docs", "the oldest");
    bar_step(&mut bar, &history, &key(Key::Down, 0));
    bar_step(&mut bar, &history, &key(Key::Down, 0));
    assert_eq!(bar.line.text(), "");

    // Up after typing walks what matches it.
    let mut bar = UrlBar::new(Line::empty());
    for c in "docs".chars() {
        bar_step(&mut bar, &history, &typed(c));
    }
    bar_step(&mut bar, &history, &key(Key::Up, 0));
    assert_eq!(bar.line.text(), "https://example.com/docs");
    assert!(bar.walk.is_some());
    // And an edit ends the walk, so the next Up walks what is there now.
    bar_step(&mut bar, &history, &key(Key::Backspace, 0));
    assert!(bar.walk.is_none());
}

#[test]
fn a_page_is_the_pane_less_the_status_row() {
    let metrics = Metrics {
        cols: 80,
        rows: 24,
        cell: (8, 16),
    };
    assert_eq!(page_pixels(metrics), (640, 368));
    assert_eq!(page_cells(metrics), Cells { cols: 80, rows: 23 });
    // 23 rows of 16 pixels is what the page is told it has, and 23 rows is
    // what the placement asks for: the two have to agree or the picture is
    // resampled every frame.
    assert_eq!(
        page_cells(metrics).rows * metrics.cell.1,
        page_pixels(metrics).1
    );
}

#[test]
fn two_quick_presses_in_the_same_place_are_a_double_click() {
    let mut clicks = Clicks::default();
    assert_eq!(clicks.press(0, 10, 10, NOW), 1);
    assert_eq!(clicks.press(0, 10, 10, NOW), 2);
    assert_eq!(clicks.press(0, 12, 11, NOW), 3, "a little movement is allowed");
    assert_eq!(clicks.press(0, 100, 10, NOW), 1, "a lot is not");
    assert_eq!(clicks.press(0, 100, 10, NOW), 2);
    assert_eq!(clicks.press(2, 100, 10, NOW), 1, "and the other button is new");
}

#[test]
fn the_button_names_and_the_mask_agree_with_each_other() {
    assert_eq!(button_name(Some(0)), "left");
    assert_eq!(button_name(Some(1)), "middle");
    assert_eq!(button_name(Some(2)), "right");
    assert_eq!(button_name(None), "none");
    assert_eq!(button_bit(Some(0)), 1);
    assert_eq!(button_bit(Some(2)), 2, "right is two, not four");
    assert_eq!(button_bit(Some(1)), 4);
    assert_eq!(button_bit(None), 0);
}

#[test]
fn the_status_line_says_what_is_known() {
    let mut tab = Tab::new("t", "");
    assert_eq!(tab.line(), "blinkterm");
    tab.url = "https://example.com".to_string();
    assert_eq!(tab.line(), "https://example.com");
    tab.title = "Example".to_string();
    assert_eq!(tab.line(), "Example  —  https://example.com");
    tab.note = Some("loading".to_string());
    assert_eq!(tab.line(), "loading");
}

#[test]
fn a_scheme_is_what_a_url_starts_with() {
    for kept in [
        "HTTP://example.com",
        "ftp://example.com",
        "git+ssh://example.com/a",
        "view-source:https://example.com",
        "chrome-error://chromewebdata/",
    ] {
        assert_eq!(normalise(kept), kept);
    }
    assert_eq!(
        normalise("example.com/login?next=https://a.example/"),
        "https://example.com/login?next=https://a.example/"
    );
    assert_eq!(
        normalise("localhost:3000/?next=http://a.example/"),
        "http://localhost:3000/?next=http://a.example/"
    );
    assert_eq!(
        normalise("/tmp/http://a"),
        "file:///tmp/http://a",
        "a path is a file whatever is in it"
    );
    let search = Some("https://s.example/%s");
    assert_eq!(
        destination("what is http://", search),
        "https://s.example/what%20is%20http%3A%2F%2F"
    );
    assert_eq!(
        destination("example.com/?u=http://a", search),
        "https://example.com/?u=http://a"
    );
}
