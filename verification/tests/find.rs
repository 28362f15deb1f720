use blinkterm::find::{
    call_params, clear_params, context, main_frame, stale_world, world_params, Ask, Finder,
    Matches, Step, MAX_HIGHLIGHTED, SCRIPT, WORLD,
};
use blinkterm::input::{Key, KeyAction, KeyInput, Mods};
use blinkterm::json::Json;
use blinkterm::text::sanitize;

fn key(k: Key, mods: u32) -> KeyInput {
    KeyInput {
        key: k,
        mods: Mods(mods),
        action: KeyAction::Press,
        text: None,
    }
}

fn typed(c: char) -> KeyInput {
    KeyInput {
        key: Key::Char(c),
        mods: Mods::default(),
        action: KeyAction::Press,
        text: Some(c),
    }
}

fn search(needle: &str) -> Step {
    Step::Typing(Some(Ask {
        needle: needle.to_string(),
        step: 0,
    }))
}

fn walk(needle: &str, step: i32) -> Step {
    Step::Typing(Some(Ask {
        needle: needle.to_string(),
        step,
    }))
}

#[test]
fn a_letter_typed_asks_for_a_search_and_a_move_does_not() {
    let mut finder = Finder::open("");
    assert_eq!(finder.step(&typed('f')), search("f"));
    assert_eq!(finder.step(&typed('o')), search("fo"));
    assert_eq!(finder.step(&typed('x')), search("fox"));
    assert_eq!(finder.step(&key(Key::Left, 0)), Step::Typing(None));
    // Readline's forward-a-character, as in the url bar: not a second
    // find.
    assert_eq!(
        finder.step(&key(Key::Char('f'), Mods::CTRL)),
        Step::Typing(None)
    );
    assert_eq!(finder.step(&key(Key::Home, 0)), Step::Typing(None));
    assert_eq!(finder.step(&key(Key::End, 0)), Step::Typing(None));
    assert_eq!(finder.step(&key(Key::Backspace, 0)), search("fo"));
    // A key that means nothing in a line, and a release.
    assert_eq!(
        finder.step(&key(Key::Char('t'), Mods::CTRL)),
        Step::Typing(None)
    );
    assert_eq!(finder.step(&key(Key::Tab, 0)), Step::Typing(None));
    let mut released = typed('z');
    released.action = KeyAction::Release;
    assert_eq!(finder.step(&released), Step::Typing(None));
    assert_eq!(finder.line.text(), "fo");
    // Emptied, it is a search for nothing, which clears the page.
    finder.step(&key(Key::Backspace, 0));
    assert_eq!(finder.step(&key(Key::Backspace, 0)), search(""));
}

#[test]
fn enter_and_ctrl_g_step_forward_and_with_shift_back() {
    let mut finder = Finder::open("");
    assert_eq!(finder.step(&key(Key::Enter, 0)), Step::Typing(None));
    assert_eq!(
        finder.step(&key(Key::Char('g'), Mods::CTRL)),
        Step::Typing(None),
        "nothing typed is nothing to step through"
    );
    for c in "fox".chars() {
        finder.step(&typed(c));
    }
    assert_eq!(finder.step(&key(Key::Enter, 0)), walk("fox", 1));
    assert_eq!(finder.step(&key(Key::Enter, Mods::SHIFT)), walk("fox", -1));
    assert_eq!(
        finder.step(&key(Key::Char('g'), Mods::CTRL)),
        walk("fox", 1)
    );
    assert_eq!(
        finder.step(&key(Key::Char('g'), Mods::CTRL | Mods::SHIFT)),
        walk("fox", -1)
    );
    assert_eq!(
        finder.step(&key(Key::Char('G'), Mods::CTRL | Mods::SHIFT)),
        walk("fox", -1)
    );
    assert_eq!(finder.step(&key(Key::Down, 0)), walk("fox", 1));
    assert_eq!(finder.step(&key(Key::Up, 0)), walk("fox", -1));
    assert_eq!(
        finder.step(&key(Key::Char('n'), Mods::CTRL)),
        walk("fox", 1)
    );
    assert_eq!(
        finder.step(&key(Key::Char('p'), Mods::CTRL)),
        walk("fox", -1)
    );
    assert_eq!(finder.line.text(), "fox", "and nothing typed");
}

#[test]
fn escape_closes_and_ctrl_q_quits_whatever_was_typed() {
    for start in ["", "fox"] {
        let mut finder = Finder::open(start);
        assert_eq!(finder.step(&key(Key::Escape, 0)), Step::Close);
        let mut finder = Finder::open(start);
        finder.step(&typed('a'));
        assert_eq!(finder.step(&key(Key::Char('q'), Mods::CTRL)), Step::Quit);
    }
}

#[test]
fn the_last_needle_is_offered_whole_and_searched_at_once() {
    let finder = Finder::open("fox");
    assert!(finder.line.whole());
    assert_eq!(
        finder.initial(),
        Some(Ask {
            needle: "fox".to_string(),
            step: 0
        })
    );
    // Enter walks it again without spending what was offered.
    let mut finder = Finder::open("fox");
    assert_eq!(finder.step(&key(Key::Enter, 0)), walk("fox", 1));
    // The first letter replaces it.
    assert_eq!(finder.step(&typed('b')), search("b"));
    assert_eq!(finder.line.text(), "b");
    assert_eq!(Finder::open("").initial(), None);
}

#[test]
fn asks_coalesce_with_the_newest_needle_and_added_steps() {
    let ask = |needle: &str, step: i32| Ask {
        needle: needle.to_string(),
        step,
    };
    assert_eq!(ask("fo", 0).merge(ask("fox", 0)), ask("fox", 0));
    assert_eq!(ask("fox", 1).merge(ask("fox", 1)), ask("fox", 2));
    assert_eq!(ask("fox", 1).merge(ask("foxy", 0)), ask("foxy", 0));
    assert_eq!(ask("fox", 0).merge(ask("fox", -1)), ask("fox", -1));
    assert_eq!(ask("fox", 2).merge(ask("fox", -3)), ask("fox", -1));
    assert_eq!(
        ask("fox", i32::MAX).merge(ask("fox", 1)),
        ask("fox", i32::MAX),
        "a held key cannot overflow the step"
    );
}

#[test]
fn the_count_is_numbers_or_this_programs_own_words() {
    let mut finder = Finder::open("");
    finder.matches = Some(Matches {
        count: 17,
        current: 3,
        highlighted: true,
    });
    assert_eq!(finder.count_text(), "", "an empty line counts nothing");
    finder.step(&typed('x'));
    assert_eq!(finder.count_text(), "3/17");
    finder.matches = None;
    assert_eq!(finder.count_text(), "", "before the first answer");
    finder.matches = Some(Matches {
        count: 0,
        current: 0,
        highlighted: true,
    });
    assert_eq!(finder.count_text(), "no matches");
    for count in [(3, 17), (0, 0), (160_000, 10_000)] {
        finder.matches = Some(Matches {
            count: count.0,
            current: count.1,
            highlighted: false,
        });
        let text = finder.count_text();
        assert_eq!(sanitize(&text), text.as_str());
    }
}

#[test]
fn the_call_carries_the_script_the_needle_and_the_step_by_value() {
    let params = call_params(
        7,
        &Ask {
            needle: "日本\"x".to_string(),
            step: 2,
        },
    );
    assert_eq!(
        params.get("functionDeclaration").and_then(Json::as_str),
        Some(SCRIPT)
    );
    assert_eq!(
        params.get("executionContextId").and_then(Json::as_i64),
        Some(7)
    );
    let arguments = params
        .get("arguments")
        .and_then(Json::as_array)
        .expect("arguments");
    // A quote survives because it is a JSON value, not source.
    assert_eq!(
        arguments[0].get("value").and_then(Json::as_str),
        Some("日本\"x")
    );
    assert_eq!(arguments[1].get("value").and_then(Json::as_i64), Some(2));
    assert_eq!(
        params.get("returnByValue").and_then(Json::as_bool),
        Some(true)
    );
    // And on the wire, too: what is written parses back to the same.
    let wire = Json::parse(&params.to_string()).expect("the params are JSON");
    assert_eq!(wire, params);

    let cleared = clear_params(7);
    let arguments = cleared
        .get("arguments")
        .and_then(Json::as_array)
        .expect("arguments");
    assert_eq!(arguments[0].get("value").and_then(Json::as_str), Some(""));
}

#[test]
fn the_reply_is_read_and_a_page_that_threw_is_not() {
    let read = |text: &str| blinkterm::find::matches(&Json::parse(text).expect("the test's own JSON"));
    assert_eq!(
        read(r#"{"result":{"type":"object","value":[17,3,true,true]}}"#),
        Some(Matches {
            count: 17,
            current: 3,
            highlighted: true
        })
    );
    assert_eq!(
        read(r#"{"result":{"type":"object","value":[0,0,false,true]}}"#),
        Some(Matches {
            count: 0,
            current: 0,
            highlighted: true
        })
    );
    assert_eq!(
        read(r#"{"result":{"type":"object","value":[4,1,false,false]}}"#)
            .map(|m| m.highlighted),
        Some(false)
    );
    assert_eq!(
        read(
            r#"{"result":{"type":"object","subtype":"error"},"exceptionDetails":{"text":"x"}}"#
        ),
        None
    );
    assert_eq!(read(r#"{"result":{"type":"string","value":"3/17"}}"#), None);
    assert_eq!(read(r#"{"result":{"type":"object","value":[0]}}"#), None);
    assert_eq!(
        read(r#"{"result":{"type":"object","value":[-1,0,false,true]}}"#),
        None
    );
    assert_eq!(
        read(r#"{"result":{"type":"object","value":["3",1,false,true]}}"#),
        None
    );
}

#[test]
fn a_world_that_went_with_its_document_is_told_apart() {
    assert!(stale_world("Cannot find context with specified id"));
    assert!(stale_world(
        "Runtime.callFunctionOn: Cannot find context with specified id"
    ));
    assert!(!stale_world("Runtime.callFunctionOn: the session ended"));
    assert!(!stale_world(""));
}

#[test]
fn the_world_and_the_frame_are_read_off_their_replies() {
    let parse = |text: &str| Json::parse(text).expect("the test's own JSON");
    assert_eq!(context(&parse(r#"{"executionContextId":4}"#)), Some(4));
    assert_eq!(context(&parse(r#"{}"#)), None);
    assert_eq!(
        main_frame(&parse(
            r#"{"frameTree":{"frame":{"id":"F","url":"about:blank"},"childFrames":[]}}"#
        )),
        Some("F".to_string())
    );
    assert_eq!(main_frame(&parse(r#"{"frameTree":{}}"#)), None);
    let params = world_params("F");
    assert_eq!(params.get("frameId").and_then(Json::as_str), Some("F"));
    assert_eq!(params.get("worldName").and_then(Json::as_str), Some(WORLD));
    assert!(
        params.get("grantUniveralAccess").is_none(),
        "no more than the page's own reach"
    );
}

#[test]
fn the_script_is_a_function_of_a_needle_and_a_step() {
    assert!(SCRIPT.starts_with("function (needle, step) {"));
    assert!(SCRIPT.trim_end().ends_with('}'));
    assert!(SCRIPT.contains("'blinkterm-find'"));
    assert!(SCRIPT.contains("'blinkterm-find-current'"));
    assert!(SCRIPT.contains(&format!("MAX_RANGES = {MAX_HIGHLIGHTED}")));
    // Nothing the pipe or a JavaScript parser could take for something
    // else: the pipe's messages end at a NUL, and a line or paragraph
    // separator ends a line in older engines' string literals.
    assert!(!SCRIPT.contains(['\0', '\u{2028}', '\u{2029}']));
    assert!(SCRIPT.is_ascii());
}
