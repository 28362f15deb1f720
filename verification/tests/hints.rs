use blinkterm::double::Double;
use blinkterm::hints::{
    clear_params, click_params, collect_params, focused_editable, focused_params, labels,
    narrow_params, show_params, Hint, Hints, Kind, Typed, ALPHABET, FOCUSED, MAX_HINTS, SCRIPT,
};
use blinkterm::input::{Key, KeyAction, KeyInput, Mods};
use blinkterm::json::Json;
use blinkterm::text::sanitize;

fn whole(n: i64) -> Double {
    Double::of(n)
}

fn key(k: Key, mods: u32) -> KeyInput {
    KeyInput {
        key: k,
        mods: Mods(mods),
        action: KeyAction::Press,
        text: None,
    }
}

fn typed(c: char) -> KeyInput {
    KeyInput {
        key: Key::Char(c),
        mods: Mods::default(),
        action: KeyAction::Press,
        text: Some(c),
    }
}

fn some_hints(n: usize) -> Hints {
    let hints: Vec<Hint> = (0..n)
        .map(|i| Hint {
            kind: Kind::Click,
            at: (whole(i as i64), whole(0)),
            href: String::new(),
        })
        .collect();
    Hints {
        labels: labels(n),
        hints,
        typed: String::new(),
        new_tab: false,
    }
}

#[test]
fn labels_are_all_one_length_from_the_alphabet_and_no_label_is_a_prefix_of_another() {
    assert_eq!(labels(0), Vec::<String>::new());
    assert_eq!(labels(1), vec!["s".to_string()]);
    let one: Vec<String> = ALPHABET.chars().map(String::from).collect();
    assert_eq!(labels(14), one);
    for (n, length) in [(15, 2), (196, 2), (197, 3), (MAX_HINTS, 3)] {
        let made = labels(n);
        assert_eq!(made.len(), n);
        assert!(made.iter().all(|label| label.chars().count() == length));
        assert!(made
            .iter()
            .all(|label| label.chars().all(|c| ALPHABET.contains(c))));
        let mut sorted = made.clone();
        sorted.sort();
        sorted.dedup();
        assert_eq!(sorted.len(), n, "distinct at {n}");
        for a in &made {
            for b in &made {
                assert!(a == b || !b.starts_with(a.as_str()), "{a} starts {b}");
            }
        }
    }
    assert_eq!(labels(15)[0], "ss");
    assert_eq!(labels(15)[14], "as");
}

#[test]
fn a_letter_narrows_a_miss_changes_nothing_and_backspace_widens() {
    let mut hints = some_hints(20);
    assert_eq!(hints.remaining(), 20);
    assert_eq!(hints.step(&typed('s')), Typed::Narrowed(14));
    assert_eq!(hints.typed, "s");
    // Not a letter of the alphabet at all.
    assert_eq!(hints.step(&typed('z')), Typed::Nothing);
    assert_eq!(hints.typed, "s");
    assert_eq!(hints.step(&key(Key::Backspace, 0)), Typed::Narrowed(20));
    assert_eq!(hints.typed, "");
    assert_eq!(hints.step(&key(Key::Backspace, 0)), Typed::Nothing);
    // A letter no label starts with: `f` is the fourth, and 20 labels
    // start with only the first two.
    assert_eq!(hints.step(&typed('f')), Typed::Nothing);
    assert_eq!(hints.typed, "");
    let mut released = typed('s');
    released.action = KeyAction::Release;
    assert_eq!(hints.step(&released), Typed::Nothing);
    assert_eq!(hints.typed, "");
}

#[test]
fn a_label_typed_whole_is_the_hint_under_it_whatever_the_case() {
    let mut hints = some_hints(20);
    assert_eq!(hints.step(&typed('s')), Typed::Narrowed(14));
    assert_eq!(
        hints.step(&typed('a')),
        Typed::Chosen(hints.hints[1].clone())
    );

    let mut hints = some_hints(20);
    let shifted = KeyInput {
        key: Key::Char('s'),
        mods: Mods(Mods::SHIFT),
        action: KeyAction::Press,
        text: Some('S'),
    };
    assert_eq!(hints.step(&shifted), Typed::Narrowed(14));
    assert_eq!(
        hints.step(&typed('A')),
        Typed::Chosen(hints.hints[1].clone())
    );

    // One letter each: chosen at once.
    let mut few = some_hints(3);
    assert_eq!(few.step(&typed('d')), Typed::Chosen(few.hints[2].clone()));
}

#[test]
fn escape_cancels_and_other_keys_are_nothing() {
    let mut hints = some_hints(20);
    assert_eq!(hints.step(&key(Key::Escape, 0)), Typed::Cancel);
    assert_eq!(hints.step(&key(Key::Enter, 0)), Typed::Nothing);
    assert_eq!(hints.step(&key(Key::Char('s'), Mods::CTRL)), Typed::Nothing);
    assert_eq!(hints.step(&key(Key::Char('s'), Mods::ALT)), Typed::Nothing);
    assert_eq!(hints.step(&key(Key::Down, 0)), Typed::Nothing);
    assert_eq!(hints.step(&key(Key::Tab, 0)), Typed::Nothing);
    assert_eq!(hints.typed, "");
}

#[test]
fn the_reply_is_read_hrefs_are_plain_text_and_another_shape_is_none() {
    let read = |text: &str, new_tab: bool| {
        Hints::from_reply(&Json::parse(text).expect("the test's own JSON"), new_tab)
    };
    let hints = read(
        r#"{"result":{"type":"object","value":[[0,70,54,16,"link",27,78,"http://x/\u001b]0;x\u0007"]]}}"#,
        true,
    )
    .expect("one hint");
    assert_eq!(
        hints.hints,
        vec![Hint {
            kind: Kind::Link,
            at: (whole(27), whole(78)),
            href: "http://x/]0;x".to_string()
        }]
    );
    assert_eq!(hints.labels, vec!["s".to_string()]);
    assert!(hints.new_tab);

    let kinds = read(
        r#"{"result":{"type":"object","value":[
            [0,0,1,1,"edit",1,1,""],[0,0,1,1,"click",2,2,""],[0,0,1,1,"other",3,3,"x"]]}}"#,
        false,
    )
    .expect("three hints");
    let kinds: Vec<Kind> = kinds.hints.iter().map(|hint| hint.kind).collect();
    assert_eq!(kinds, vec![Kind::Edit, Kind::Click, Kind::Click]);

    assert_eq!(
        read(
            r#"{"result":{"type":"object","subtype":"error"},"exceptionDetails":{"text":"x"}}"#,
            false
        ),
        None
    );
    assert_eq!(
        read(r#"{"result":{"type":"string","value":"x"}}"#, false),
        None
    );
    let none = read(r#"{"result":{"type":"object","value":[]}}"#, false).expect("empty");
    assert!(none.hints.is_empty());
    assert!(none.labels.is_empty());
}

#[test]
fn a_click_is_a_move_a_press_and_a_release_at_the_point_in_css_pixels() {
    let events = click_params((whole(27), whole(78)));
    let field = |event: &Json, name: &str| event.get(name).cloned();
    let kinds: Vec<_> = events
        .iter()
        .map(|event| event.get("type").and_then(Json::as_str).map(str::to_string))
        .collect();
    assert_eq!(
        kinds,
        ["mouseMoved", "mousePressed", "mouseReleased"].map(|k| Some(k.to_string()))
    );
    for event in &events {
        assert_eq!(event.get("x").and_then(Json::as_number), Some(whole(27)));
        assert_eq!(event.get("y").and_then(Json::as_number), Some(whole(78)));
        assert_eq!(event.get("modifiers").and_then(Json::as_i64), Some(0));
    }
    for event in &events[1..] {
        assert_eq!(field(event, "button"), Some(Json::string("left")));
        assert_eq!(event.get("clickCount").and_then(Json::as_i64), Some(1));
    }
    assert_eq!(events[1].get("buttons").and_then(Json::as_i64), Some(1));
    assert_eq!(events[2].get("buttons").and_then(Json::as_i64), Some(0));
}

#[test]
fn the_calls_carry_the_script_the_stage_and_the_labels_by_value() {
    let argument = |params: &Json, n: usize| {
        params
            .get("arguments")
            .and_then(Json::as_array)
            .and_then(|arguments| arguments.get(n))
            .and_then(|argument| argument.get("value"))
            .cloned()
    };
    let collect = collect_params(7, whole(16));
    assert_eq!(
        collect.get("functionDeclaration").and_then(Json::as_str),
        Some(SCRIPT)
    );
    assert_eq!(
        collect.get("executionContextId").and_then(Json::as_i64),
        Some(7)
    );
    assert_eq!(argument(&collect, 0), Some(Json::string("collect")));
    assert_eq!(argument(&collect, 2).and_then(|v| v.as_i64()), Some(16));
    assert_eq!(
        collect.get("returnByValue").and_then(Json::as_bool),
        Some(true)
    );

    let show = show_params(7, &["sa".to_string(), "sd".to_string()], whole(8));
    assert_eq!(argument(&show, 0), Some(Json::string("show")));
    assert_eq!(
        argument(&show, 1),
        Some(Json::Array(vec![Json::string("sa"), Json::string("sd")]))
    );
    assert_eq!(argument(&show, 2).and_then(|v| v.as_i64()), Some(8));

    let narrow = narrow_params(7, "sa");
    assert_eq!(argument(&narrow, 0), Some(Json::string("narrow")));
    assert_eq!(argument(&narrow, 1), Some(Json::string("sa")));
    assert_eq!(argument(&clear_params(7), 0), Some(Json::string("clear")));
    // And on the wire, too: what is written parses back to the same.
    let wire = Json::parse(&show.to_string()).expect("the params are JSON");
    assert_eq!(wire, show);
}

#[test]
fn the_script_is_a_function_of_what_labels_and_px() {
    assert!(SCRIPT.starts_with("function (what, labels, px) {"));
    assert!(SCRIPT.trim_end().ends_with('}'));
    assert!(SCRIPT.contains("'blinkterm-hints'"));
    assert!(SCRIPT.contains("mode: 'closed'"));
    assert!(SCRIPT.contains(&format!("MAX_HINTS = {MAX_HINTS}")));
    assert!(!SCRIPT.contains(['\0', '\u{2028}', '\u{2029}', '`']));
    assert!(SCRIPT.is_ascii());
    assert!(!FOCUSED.contains(['\0', '\u{2028}', '\u{2029}', '`']));
}

#[test]
fn the_words_on_the_row_are_a_count_and_this_programs_own() {
    let mut hints = some_hints(12);
    assert_eq!(hints.words(), "12 hints");
    hints.new_tab = true;
    assert_eq!(hints.words(), "12 hints to a new tab");
    let one = some_hints(1);
    assert_eq!(one.words(), "1 hint");
    for words in [hints.words(), one.words()] {
        assert_eq!(sanitize(&words), words.as_str());
    }
}

#[test]
fn what_has_focus_is_read_as_editable_or_not() {
    let read = |text: &str| focused_editable(&Json::parse(text).expect("the test's own JSON"));
    assert_eq!(
        read(r#"{"result":{"type":"boolean","value":true}}"#),
        Some(true)
    );
    assert_eq!(
        read(r#"{"result":{"type":"boolean","value":false}}"#),
        Some(false)
    );
    assert_eq!(read(r#"{"result":{"type":"string","value":"x"}}"#), None);
    assert_eq!(
        read(r#"{"result":{},"exceptionDetails":{"text":"x"}}"#),
        None
    );
    assert_eq!(
        focused_params().get("expression").and_then(Json::as_str),
        Some(FOCUSED)
    );
}
