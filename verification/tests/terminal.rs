use blinkterm::input::{Input, Key, KeyAction, KeyInput, Mods, MouseKind, PASTE_LIMIT};
use blinkterm::terminal::Parser;

fn read(bytes: &[u8]) -> Vec<Input> {
    Parser::new().feed(bytes)
}

fn keys(bytes: &[u8]) -> Vec<KeyInput> {
    read(bytes)
        .into_iter()
        .map(|input| match input {
            Input::Key(key) => key,
            other => panic!("{other:?}"),
        })
        .collect()
}

fn key(k: Key, mods: u32, action: KeyAction, text: Option<char>) -> KeyInput {
    KeyInput {
        key: k,
        mods: Mods(mods),
        action,
        text,
    }
}

fn press(k: Key, mods: u32) -> KeyInput {
    key(k, mods, KeyAction::Press, None)
}

#[test]
fn plain_characters_and_control_characters_are_keys() {
    let letter = |c| key(Key::Char(c), 0, KeyAction::Press, Some(c));
    assert_eq!(
        keys("aé日😀".as_bytes()),
        vec![letter('a'), letter('é'), letter('日'), letter('😀')]
    );
    assert_eq!(
        keys(b"\r\t\x7f\x11"),
        vec![
            press(Key::Enter, 0),
            press(Key::Tab, 0),
            press(Key::Backspace, 0),
            press(Key::Char('q'), Mods::CTRL),
        ]
    );
    assert_eq!(keys(b"\x1bx"), vec![press(Key::Char('x'), Mods::ALT)]);
    assert_eq!(keys(b"\xff\xc0a"), vec![letter('a')], "no character is passed over");
}

#[test]
fn the_kitty_protocol_says_which_key_what_is_held_and_what_it_types() {
    assert_eq!(
        keys(b"\x1b[97;;97u\x1b[97;2;65u\x1b[113;5u"),
        vec![
            key(Key::Char('a'), 0, KeyAction::Press, Some('a')),
            key(Key::Char('a'), Mods::SHIFT, KeyAction::Press, Some('A')),
            press(Key::Char('q'), Mods::CTRL),
        ]
    );
    assert_eq!(
        keys(b"\x1b[113;5:3u\x1b[9;6u\x1b[57441;2u\x1b[57376u"),
        vec![
            key(Key::Char('q'), Mods::CTRL, KeyAction::Release, None),
            press(Key::Tab, Mods::CTRL | Mods::SHIFT),
            press(Key::Other(57441), Mods::SHIFT),
            press(Key::Function(13), 0),
        ]
    );
    assert_eq!(
        keys(b"\x1b[A\x1b[1;3D\x1b[1;1:2B\x1b[3~\x1b[15;5~\x1b[Z\x1bOP\x1bOH"),
        vec![
            press(Key::Up, 0),
            press(Key::Left, Mods::ALT),
            key(Key::Down, 0, KeyAction::Repeat, None),
            press(Key::Delete, 0),
            press(Key::Function(5), Mods::CTRL),
            press(Key::Tab, Mods::SHIFT),
            press(Key::Function(1), 0),
            press(Key::Home, 0),
        ]
    );
}

#[test]
fn a_mouse_report_says_where_from_zero_and_what() {
    let reports: Vec<_> = read(b"\x1b[<0;11;21M\x1b[<2;11;21m\x1b[<35;1;1M\x1b[<65;5;6M\x1b[<20;1;1M")
        .into_iter()
        .map(|input| match input {
            Input::Mouse(report) => report,
            other => panic!("{other:?}"),
        })
        .collect();
    assert_eq!((reports[0].x, reports[0].y), (10, 20));
    assert_eq!((reports[0].kind, reports[0].button), (MouseKind::Press, Some(0)));
    assert_eq!((reports[1].kind, reports[1].button), (MouseKind::Release, Some(2)));
    assert_eq!((reports[2].kind, reports[2].button), (MouseKind::Move, None));
    assert_eq!((reports[3].kind, reports[3].wheel), (MouseKind::Wheel, (0, 1)));
    assert_eq!(reports[4].mods, Mods(Mods::SHIFT | Mods::CTRL));
}

#[test]
fn a_paste_is_one_piece_and_one_over_the_limit_is_refused() {
    assert_eq!(
        read(b"\x1b[200~a\nb \x1b[A \x1b[201~"),
        vec![Input::Paste("a\nb \x1b[A ".to_string())]
    );
    let mut long = b"\x1b[200~".to_vec();
    long.extend(vec![b'x'; PASTE_LIMIT + 1]);
    long.extend(b"\x1b[201~q");
    let inputs = read(&long);
    assert_eq!(
        inputs[0],
        Input::PasteRefused {
            bytes: PASTE_LIMIT + 1
        }
    );
    assert_eq!(inputs.len(), 2, "and what follows is read");
    let mut parser = Parser::new();
    assert_eq!(parser.feed(b"\x1b[200~half"), Vec::new());
    assert!(parser.pasting());
    assert_eq!(parser.flush(), None);
    assert!(parser.abandon_paste());
    assert!(!parser.abandon_paste());
    assert_eq!(parser.feed(b"a").len(), 1);
}

#[test]
fn it_does_not_matter_where_the_bytes_are_cut() {
    let bytes = "a\x1b[1;5A日\x1b[200~x\x1b[201~\x1b[<0;1;1M\x1b]11;rgb:0/0/0\x1b\\z".as_bytes();
    let whole = read(bytes);
    for cut in 0..=bytes.len() {
        let mut parser = Parser::new();
        let mut inputs = parser.feed(&bytes[..cut]);
        inputs.extend(parser.feed(&bytes[cut..]));
        assert_eq!(inputs, whole, "cut at {cut}");
    }
    assert_eq!(whole.len(), 6);
}

#[test]
fn an_escape_with_nothing_behind_it_is_the_escape_key() {
    let mut parser = Parser::new();
    assert_eq!(parser.feed(b"\x1b"), Vec::new());
    assert_eq!(parser.flush(), Some(Input::Key(press(Key::Escape, 0))));
    assert_eq!(parser.flush(), None);
    parser.feed(b"\x1b[");
    assert_eq!(
        parser.flush(),
        Some(Input::Key(press(Key::Char('['), Mods::ALT)))
    );
}

#[test]
fn the_answer_about_the_mouse_is_kept() {
    let mut parser = Parser::new();
    assert!(!parser.pixel_coordinates());
    assert_eq!(parser.feed(b"\x1b[?1016;1$y"), vec![Input::Mode]);
    assert!(parser.pixel_coordinates());
    parser.feed(b"\x1b[?1016;0$y");
    assert!(!parser.pixel_coordinates());
}
