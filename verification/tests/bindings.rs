use blinkterm::bindings::{
    defaults, help, rows, Action, Binding, Bindings, Chord, Lookup,
};
use blinkterm::input::{Key, KeyAction, KeyInput, Mods};

/// The rebinding table, as it is written for a reader.
const TABLE: &str = "\
| `quit` | `ctrl+q` | quit |
| `url` | `ctrl+l` | type a url |
| `reload` | `ctrl+r` | reload |
| `back` | `alt+left` | back |
| `forward` | `alt+right` | forward |
| `new-tab` | `ctrl+t` | a new tab |
| `close-tab` | `ctrl+w` | close this tab |
| `reopen-tab` | `ctrl+shift+t`, `alt+t` | reopen the tab closed last |
| `bookmark` | `ctrl+d` | bookmark this page, or remove the bookmark |
| `next-tab` | `ctrl+tab` | the next tab |
| `previous-tab` | `ctrl+shift+tab` | the tab before |
| `tab-1 … tab-8` | `alt+1 … alt+8` | the nth tab |
| `last-tab` | `alt+9` | the last tab |
| `list-tabs` | `ctrl+shift+a`, `alt+a` | the tab list |
| `move-tab-left` | `ctrl+shift+pageup`, `alt+shift+pageup` | move this tab left |
| `move-tab-right` | `ctrl+shift+pagedown`, `alt+shift+pagedown` | move this tab right |
| `zoom-in` | `alt+=`, `ctrl+=` | zoom in |
| `zoom-out` | `alt+-`, `ctrl+-` | zoom out |
| `zoom-reset` | `alt+0`, `ctrl+0` | back to 100% |
| `find` | `ctrl+f` | find in the page |
| `permissions` | `alt+p` | allow this site the camera, microphone, location, notifications or clipboard |
| `copy` | `alt+c` | copy the selection, or the line being typed |
| `copy-url` | `alt+u` | copy the url |
| `normal-mode` | `ctrl+.` | normal mode on or off |
";

fn key(key: Key, mods: u32) -> KeyInput {
    KeyInput {
        key,
        mods: Mods(mods),
        action: KeyAction::Press,
        text: None,
    }
}

#[test]
fn every_default_chord_in_the_table_parses_and_spells_back_the_same() {
    for row in &rows() {
        if matches!(row.action, Action::Tab(_)) {
            continue;
        }
        let spelled: Vec<&str> = row.keys.split(',').map(str::trim).collect();
        let chords = defaults(row.action);
        assert_eq!(chords.len(), spelled.len(), "{}: {}", row.name, row.keys);
        for (chord, spelled) in chords.iter().zip(spelled) {
            assert_eq!(chord.spell(), spelled, "{}", row.name);
        }
    }
    for n in 1..=8 {
        let spelled: Vec<String> = defaults(Action::Tab(n)).iter().map(Chord::spell).collect();
        assert_eq!(spelled, [format!("alt+{n}")]);
    }
    for spelled in ["ctrl+plus", "ctrl+_"] {
        assert_eq!(Chord::parse(spelled).expect(spelled).spell(), spelled);
    }
    assert_eq!(
        Chord::parse("ctrl+shift+tab"),
        Ok(Chord {
            mods: Mods(Mods::CTRL | Mods::SHIFT),
            key: Key::Tab
        })
    );
}

#[test]
fn the_help_lists_every_action_once_with_its_default_chords() {
    let help = help();
    let lines: Vec<&str> = help
        .lines()
        .skip_while(|line| !line.starts_with("actions"))
        .skip(1)
        .take(rows().len())
        .collect();
    assert_eq!(lines.len(), rows().len());
    for (line, row) in lines.iter().zip(&rows()) {
        let line = line.trim();
        assert!(line.starts_with(row.name), "{line} for {}", row.name);
        assert!(line.ends_with(row.keys), "{line} for {}", row.name);
    }
    for row in &rows() {
        let named = help
            .lines()
            .filter(|line| line.trim().split("  ").next() == Some(row.name))
            .count();
        assert_eq!(named, 1, "{}", row.name);
    }
    assert!(
        help.trim_end()
            .ends_with("it needs ctrl, alt or super\nunless it is an f-key."),
        "{help}"
    );
}

/// The rows of the rebinding table as it is written for a reader, each cell with
/// its backticks gone and `…` written `..`, as [`rows`] writes a range.
fn readme_rows() -> Vec<Vec<String>> {
    TABLE
        .lines()
        .filter(|line| line.starts_with("| `"))
        .map(|line| {
            line.trim_matches('|')
                .split('|')
                .map(|cell| cell.replace('`', "").replace('…', "..").trim().to_string())
                .collect()
        })
        .collect()
}

#[test]
fn the_readme_s_rebinding_table_is_the_action_table() {
    let written = readme_rows();
    let names: Vec<&str> = written.iter().map(|cells| cells[0].as_str()).collect();
    let wanted: Vec<&str> = rows().iter().map(|row| row.name).collect();
    assert_eq!(names, wanted);
    for (cells, row) in written.iter().zip(&rows()) {
        if matches!(row.action, Action::Tab(_)) {
            assert_eq!(cells[1], row.keys);
            continue;
        }
        let written: Vec<String> = cells[1]
            .split(',')
            .map(|chord| Chord::parse(chord).expect(chord).spell())
            .collect();
        let wanted: Vec<String> = defaults(row.action).iter().map(Chord::spell).collect();
        assert_eq!(written, wanted, "{}", row.name);
        assert_eq!(cells[2], row.what, "{}", row.name);
    }
}

#[test]
fn modifiers_are_case_insensitive_and_in_any_order() {
    let wanted = Chord::parse("ctrl+shift+tab").expect("a chord");
    for spelled in ["shift+ctrl+tab", "CTRL+Shift+TAB", "Control+shift+Tab"] {
        assert_eq!(Chord::parse(spelled), Ok(wanted), "{spelled}");
    }
    assert_eq!(Chord::parse("ctrl+Q"), Chord::parse("ctrl+q"));
    for spelled in ["super+a", "meta+a", "cmd+a"] {
        assert_eq!(
            Chord::parse(spelled).map(|c| c.mods),
            Ok(Mods(Mods::SUPER)),
            "{spelled}"
        );
    }
}

#[test]
fn plus_and_space_are_words_because_they_cannot_be_written_bare() {
    assert_eq!(Chord::parse("alt+plus").map(|c| c.key), Ok(Key::Char('+')));
    assert_eq!(
        Chord::parse("ctrl+space").map(|c| c.key),
        Ok(Key::Char(' '))
    );
    assert_eq!(Chord::parse("ctrl+ ").map(|c| c.spell()).ok(), None);
    let spelled = Chord {
        mods: Mods(Mods::ALT),
        key: Key::Char('+'),
    }
    .spell();
    assert_eq!(spelled, "alt+plus");
}

#[test]
fn a_named_key_is_one_of_the_list_and_f13_is_a_function_key() {
    for (spelled, key) in [
        ("f13", Key::Function(13)),
        ("F5", Key::Function(5)),
        ("f24", Key::Function(24)),
        ("escape", Key::Escape),
        ("esc", Key::Escape),
        ("pagedown", Key::PageDown),
        ("enter", Key::Enter),
    ] {
        assert_eq!(Chord::parse(spelled).map(|c| c.key), Ok(key), "{spelled}");
    }
    for wrong in ["f0", "f25", "fx", "return", "pgdn"] {
        let why = Chord::parse(wrong).expect_err(wrong);
        assert!(why.contains("is not a key"), "{wrong}: {why}");
    }
}

#[test]
fn a_chord_with_no_key_or_an_unknown_modifier_says_which() {
    assert_eq!(
        Chord::parse("ctrl+"),
        Err("ctrl+: no key after the last +".to_string())
    );
    assert_eq!(
        Chord::parse("hyper+a"),
        Err("hyper+a: \"hyper\" is not a modifier; ctrl, alt, shift or super".to_string())
    );
    assert!(Chord::parse("ctrl+ctrl+a")
        .expect_err("twice")
        .contains("twice"));
    assert!(Chord::parse("").is_err());
}

#[test]
fn every_action_has_a_name_that_parses_back_to_it() {
    let every = Action::every();
    assert_eq!(every.len(), rows().len() - 1 + 8);
    for action in every {
        assert_eq!(Action::parse(&action.name()), Ok(action), "{action:?}");
    }
    assert_eq!(Action::parse("url"), Ok(Action::EditUrl));
    assert_eq!(Action::parse("Tab-3"), Ok(Action::Tab(3)));
    assert_eq!(Action::parse("normal-mode"), Ok(Action::ToggleNormal));
    for wrong in ["tab-0", "tab-10", "bookmarks", "tab-1 .. tab-8"] {
        let why = Action::parse(wrong).expect_err(wrong);
        assert!(why.contains("is not an action"), "{why}");
        assert!(
            why.ends_with("copy-url, normal-mode, tab-1..tab-8, or none"),
            "the list is in the sentence: {why}"
        );
    }
    assert!(Action::parse("tab-9").is_err());
}

#[test]
fn tab_9_is_refused_and_told_that_the_last_tab_is_last_tab() {
    assert_eq!(
        Action::parse("tab-9"),
        Err(
            "\"tab-9\": alt+9 is the last tab, whatever the count; that action is last-tab"
                .to_string()
        )
    );
    let why = Action::parse("tab-10").expect_err("tab-10");
    assert!(why.starts_with("\"tab-10\" is not an action"), "{why}");
}

#[test]
fn a_chord_needs_ctrl_alt_or_super_unless_it_is_a_function_key() {
    for bare in ["j", "shift+j", "space", "esc", "shift+pageup"] {
        assert_eq!(
            Binding::parse(bare, "back"),
            Err(format!(
                "key.{bare}: a key with no ctrl, alt or super is the page's; add one, or use f1..f24"
            )),
            "{bare}"
        );
    }
    for held in ["f5", "shift+f5", "super+j", "ctrl+j", "alt+enter"] {
        assert!(Binding::parse(held, "back").is_ok(), "{held}");
    }
    // The spelling parser is not the rule.
    assert!(Chord::parse("j").is_ok());
    // Chord first, then modifiers, then the action.
    assert_eq!(
        Binding::parse("j", "nonsense")
            .expect_err("bare")
            .split(':')
            .next(),
        Some("key.j")
    );
}

#[test]
fn a_chord_matches_the_key_with_exactly_its_modifiers() {
    let chord = |text| Chord::parse(text).expect(text);
    assert!(chord("ctrl+tab").matches(&key(Key::Tab, Mods::CTRL)));
    assert!(!chord("ctrl+tab").matches(&key(Key::Tab, Mods::CTRL | Mods::SHIFT)));
    assert!(!chord("ctrl+=").matches(&key(Key::Char('='), Mods::CTRL | Mods::SHIFT)));
    assert!(!chord("alt+1").matches(&key(Key::Char('1'), Mods::ALT | Mods::SUPER)));
    assert!(!chord("alt+1").matches(&key(Key::Char('1'), 0)));
    // Caps lock (64) and num lock (128) are not part of a chord.
    assert!(chord("alt+1").matches(&key(Key::Char('1'), Mods::ALT | 64 | 128)));
    assert!(chord("ctrl+q").matches(&key(Key::Char('Q'), Mods::CTRL)));
}

fn row(chord: &str, action: Option<Action>) -> Binding {
    Binding {
        chord: Chord::parse(chord).expect(chord),
        action,
    }
}

#[test]
fn a_later_row_for_the_same_chord_replaces_an_earlier_one() {
    let table = Bindings::from_rows(vec![
        row("alt+b", Some(Action::Back)),
        row("alt+b", Some(Action::Forward)),
    ]);
    assert_eq!(
        table.lookup(&key(Key::Char('b'), Mods::ALT)),
        Lookup::Bound(Action::Forward)
    );
    assert_eq!(table.iter().count(), 2, "both lines are kept, in order");
}

#[test]
fn none_unbinds_and_an_empty_table_answers_default_for_everything() {
    let empty = Bindings::default();
    assert!(empty.is_empty());
    for input in [
        key(Key::Char('q'), Mods::CTRL),
        key(Key::Tab, Mods::CTRL),
        key(Key::Char('a'), 0),
    ] {
        assert_eq!(empty.lookup(&input), Lookup::Default, "{input:?}");
    }
    let table = Bindings::from_rows(vec![
        Binding::parse("ctrl+q", "none").expect("a row"),
        Binding::parse("alt+b", "back").expect("a row"),
    ]);
    assert_eq!(
        table.lookup(&key(Key::Char('q'), Mods::CTRL)),
        Lookup::Unbound
    );
    assert_eq!(
        table.lookup(&key(Key::Char('b'), Mods::ALT)),
        Lookup::Bound(Action::Back)
    );
    assert_eq!(
        table.lookup(&key(Key::Char('w'), Mods::CTRL)),
        Lookup::Default
    );
}

#[test]
fn a_release_is_never_a_command_whatever_the_table_says() {
    let table = Bindings::from_rows(vec![row("alt+b", Some(Action::Back))]);
    let mut released = key(Key::Char('b'), Mods::ALT);
    released.action = KeyAction::Release;
    assert_eq!(table.lookup(&released), Lookup::Default);
}

#[test]
fn a_binding_names_its_chord_when_the_chord_is_wrong() {
    assert_eq!(
        Binding::parse("ctrl+", "back"),
        Err("key.ctrl+: no key after the last +".to_string())
    );
    let why = Binding::parse("ctrl+a", "bookmarks").expect_err("not an action");
    assert!(why.starts_with("\"bookmarks\" is not an action"), "{why}");
}

#[test]
fn a_number_is_written_one_way() {
    for wrong in ["tab-03", "tab-+3", "tab-", "tab-1 ", "tab-1x", "tab--1"] {
        let parsed = Action::parse(wrong);
        if wrong.trim() == "tab-1" {
            assert_eq!(parsed, Ok(Action::Tab(1)), "what is around it is trimmed");
            continue;
        }
        let why = parsed.expect_err(wrong);
        assert!(
            why.starts_with(&format!("{wrong:?} is not an action")),
            "{wrong}: {why}"
        );
    }
    assert_eq!(Action::parse("TAB-3"), Ok(Action::Tab(3)));
    for wrong in ["f05", "f00", "f024"] {
        assert!(Chord::parse(wrong).is_err(), "{wrong}");
    }
}

#[test]
fn no_chord_is_a_default_of_two_actions() {
    let mut seen: Vec<String> = Vec::new();
    for action in Action::every() {
        let chords = defaults(action);
        assert!(!chords.is_empty(), "{action:?}");
        for chord in chords {
            let spelled = chord.spell();
            assert!(!seen.contains(&spelled), "{spelled}");
            seen.push(spelled);
        }
    }
    assert_eq!(seen.len(), 38);
}
