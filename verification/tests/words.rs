use blinkterm::base64::{decode, encode};
use blinkterm::double::Double;
use blinkterm::input::{Key, KeyAction, KeyInput, Mods};
use blinkterm::json::Json;
use blinkterm::line::{Edit, Line};
use blinkterm::paths::{absolute, file_name_of, is_same_place, join, with_tilde};
use blinkterm::row::window;
use blinkterm::screen::{
    clip_to, dialog_line, prompt_room_beside, split_line, status_line, tab_line, width, TabLabel,
};
use blinkterm::text::{is_plain, sanitize};

fn press(k: Key, mods: u32) -> KeyInput {
    KeyInput {
        key: k,
        mods: Mods(mods),
        action: KeyAction::Press,
        text: None,
    }
}

fn typed(c: char) -> KeyInput {
    KeyInput {
        key: Key::Char(c),
        mods: Mods::default(),
        action: KeyAction::Press,
        text: Some(c),
    }
}

fn write(line: &mut Line, words: &str) {
    for c in words.chars() {
        line.step(&typed(c));
    }
}

/// What stands on a row once the sequences round it are off.
fn on_row(bytes: Vec<u8>) -> String {
    let text = String::from_utf8(bytes).expect("utf-8");
    let mut out = String::new();
    let mut rest = text.chars();
    while let Some(c) = rest.next() {
        if c == '\u{1b}' {
            for c in rest.by_ref() {
                if c.is_ascii_alphabetic() {
                    break;
                }
            }
        } else {
            out.push(c);
        }
    }
    out
}

#[test]
fn plain_text_comes_out_whatever_goes_in_and_plain_text_is_left_alone() {
    for (given, plain) in [
        ("plain", "plain"),
        ("日本語 and é", "日本語 and é"),
        ("\u{1b}]0;x\u{7}", "]0;x"),
        ("a\u{202e}b\u{200b}c", "abc"),
        ("", ""),
    ] {
        let out = sanitize(given);
        assert_eq!(out, plain);
        assert!(out.chars().all(is_plain));
        assert_eq!(sanitize(&out), out);
    }
}

#[test]
fn base64_decodes_to_what_was_encoded() {
    for (bytes, text) in [
        (&b""[..], ""),
        (b"h", "aA=="),
        (b"hi", "aGk="),
        (b"hi!", "aGkh"),
        (b"\xff\xfe\xfd\x00", "//79AA=="),
    ] {
        assert_eq!(encode(bytes), text.as_bytes());
        assert_eq!(decode(text.as_bytes()), Some(bytes.to_vec()));
    }
    assert_eq!(decode(b"a"), None);
    assert_eq!(decode(b"a$b="), None);
}

#[test]
fn json_is_read_and_written_back_the_same() {
    for text in [
        "null",
        "true",
        "-12",
        "12.5",
        "\"a\\n\\\"b\\\\\"",
        "[]",
        "{}",
        "[1,[2,{\"a\":null}],\"x\"]",
        "{\"a\":{\"b\":[true,false]},\"c\":\"日本\"}",
    ] {
        let value = Json::parse(text).expect(text);
        assert_eq!(value.to_string(), text);
        assert_eq!(Json::parse(&value.to_string()), Some(value));
    }
    for text in ["", "nul", "[1,]", "{\"a\"}", "\"x", "01", "1 2", "\"\n\""] {
        assert_eq!(Json::parse(text), None, "{text:?}");
    }
    assert_eq!(
        Json::parse(" \"\\u65e5\\ud83d\\ude00\" ").as_ref().and_then(Json::as_str),
        Some("日😀")
    );
    assert_eq!(
        Json::parse("\"\\ud83d\"").as_ref().and_then(Json::as_str),
        Some("\u{fffd}"),
        "half a pair"
    );
    assert_eq!(
        Json::parse("1.50e2").and_then(|v| v.as_number()),
        Some(Double::of(150))
    );
    assert_eq!(Json::parse("1.5").and_then(|v| v.as_i64()), None);
    assert_eq!(
        Json::string("\u{1}\u{0}").to_string(),
        "\"\\u0001\\u0000\"",
        "nothing the pipe takes for an end"
    );
    let deep = "[".repeat(200) + &"]".repeat(200);
    assert_eq!(Json::parse(&deep), None);
}

#[test]
fn a_line_is_typed_moved_in_and_taken_back() {
    let mut line = Line::empty();
    write(&mut line, "hello world");
    assert_eq!(line.step(&press(Key::Char('w'), Mods::CTRL)), Edit::Typing);
    assert_eq!(line.text(), "hello ");
    line.step(&press(Key::Home, 0));
    write(&mut line, "oh ");
    assert_eq!(line.text(), "oh hello ");
    line.step(&press(Key::Backspace, 0));
    assert_eq!(line.text(), "ohhello ");
    line.step(&typed('x'));
    line.step(&press(Key::Backspace, 0));
    assert_eq!(line.text(), "ohhello ", "backspace takes back a character");
    let mut released = typed('z');
    released.action = KeyAction::Release;
    line.step(&released);
    assert_eq!(line.text(), "ohhello ");
    assert_eq!(line.step(&press(Key::Enter, 0)), Edit::Go);
    assert_eq!(line.step(&press(Key::Escape, 0)), Edit::Cancel);
    assert_eq!(line.step(&press(Key::Char('q'), Mods::CTRL)), Edit::Quit);
}

#[test]
fn the_first_character_typed_replaces_a_line_offered_whole() {
    let mut line = Line::selected("https://example.com/");
    assert!(line.whole());
    line.step(&typed('x'));
    assert_eq!(line.text(), "x");
    assert!(!line.whole());
    let mut kept = Line::selected("abc");
    kept.step(&press(Key::Left, 0));
    kept.step(&typed('x'));
    assert!(kept.text().contains('a') && kept.text().contains('c'));
}

#[test]
fn what_is_offered_is_taken_at_the_end_of_the_line() {
    let mut line = Line::empty();
    write(&mut line, "exa");
    line.suggest(Some("mple.com".to_string()));
    assert_eq!(line.hint(), "mple.com");
    line.step(&press(Key::Right, 0));
    assert_eq!(line.text(), "example.com");
    assert_eq!(line.hint(), "");
}

#[test]
fn the_cursor_is_always_in_sight() {
    let mut line = Line::empty();
    write(&mut line, "0123456789日本語");
    for room in 1..20 {
        for _ in 0..14 {
            let seen = window(&line, room);
            assert!(seen.cursor < room, "{seen:?} in {room}");
            assert!(width(&seen.text) <= room, "{seen:?} in {room}");
            line.step(&press(Key::Left, 0));
        }
        line.step(&press(Key::End, 0));
    }
}

#[test]
fn a_row_is_as_wide_as_the_pane_whatever_is_on_it() {
    for cols in [1u32, 2, 7, 20, 80] {
        for text in ["", "short", "日本語日本語", "a much longer line than the pane"] {
            let row = on_row(status_line(cols, text));
            assert_eq!(width(&row), cols as usize, "{row:?}");
            let row = on_row(split_line(cols, text, "3/17"));
            assert_eq!(width(&row), cols as usize, "{row:?}");
            let row = on_row(dialog_line(cols, text, "y/n"));
            assert_eq!(width(&row), cols as usize, "{row:?}");
        }
        let labels = vec![
            TabLabel {
                title: "one".to_string(),
                active: true,
                dialog: false,
            },
            TabLabel {
                title: "二つ目".to_string(),
                active: false,
                dialog: true,
            },
        ];
        let row = on_row(tab_line(cols, &labels, ""));
        assert_eq!(width(&row), cols as usize, "{row:?}");
    }
}

#[test]
fn clipping_keeps_a_front_that_fits() {
    assert_eq!(clip_to("hello", 3), "hel");
    assert_eq!(clip_to("hello", 9), "hello");
    assert_eq!(clip_to("日本語", 3), "日", "half a character is none");
    assert_eq!(width("日本語"), 6);
    assert_eq!(width("e\u{301}"), 1, "a mark takes no cell of its own");
    assert!(prompt_room_beside(80, "url: ", "") > prompt_room_beside(80, "url: ", "3/17"));
}

#[test]
fn paths_are_joined_compared_and_said_under_home() {
    assert!(absolute("/a"));
    assert!(!absolute("a"));
    assert_eq!(join("/a", "b"), "/a/b");
    assert_eq!(join("/a/", "b"), "/a/b");
    assert_eq!(join("/a", "/b"), "/b", "one from the root stands alone");
    assert!(is_same_place("/a//b/", "/a/b"));
    assert!(!is_same_place("/a/b", "/a/c"));
    assert_eq!(with_tilde("/home/u/x", Some("/home/u")), "~/x");
    assert_eq!(with_tilde("/home/ux", Some("/home/u")), "/home/ux");
    assert_eq!(with_tilde("/etc", None), "/etc");
    assert_eq!(file_name_of("/a/b.txt"), "b.txt");
}
