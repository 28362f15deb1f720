use blinkterm::doctor::{
    ask, config_line, downloads_line, engine_lines, more, profile_line, read_answer, say, shm_line,
    terminal_lines, Asked, Kept, Provenance, Started, TerminalAnswer, ASK,
};

#[test]
fn a_terminal_that_answers_only_da1_reads_as_two_nos_and_a_sentinel() {
    let answer = read_answer(b"\x1b[?62;22c");
    assert_eq!(answer.graphics, None);
    assert_eq!(answer.keyboard, None);
    assert!(answer.da1);
}

#[test]
fn silence_reads_as_no_sentinel() {
    assert_eq!(read_answer(b""), TerminalAnswer::default());
}

#[test]
fn an_error_from_the_graphics_query_carries_its_text() {
    let answer = read_answer(b"\x1b_Gi=31;EBADF:Failed to open file\x1b\\\x1b[?1u\x1b[?62c");
    assert_eq!(
        answer.graphics,
        Some(Err("EBADF:Failed to open file".to_string()))
    );
    assert_eq!(answer.keyboard, Some(1));
}

#[test]
fn keys_typed_during_the_wait_do_not_change_the_answer() {
    let quiet = read_answer(b"\x1b_Gi=31;OK\x1b\\\x1b[?0u\x1b[?62;22c");
    let typed = read_answer(b"ab\x1b[97;5u\x1b_Gi=31;OK\x1b\\q\x1b[?0u\x1b[Ax\x1b[?62;22c");
    assert_eq!(typed, quiet);
}

#[test]
fn a_query_for_another_image_id_is_not_this_programs_answer() {
    let answer = read_answer(b"\x1b_Gi=1;OK\x1b\\\x1b_Gi=310;OK\x1b\\\x1b[?62c");
    assert_eq!(answer.graphics, None);
    assert!(answer.da1);
}

#[test]
fn the_terminal_answers_the_three_questions_in_order_and_the_answer_reads_as_three_yeses() {
    assert!(ASK.starts_with("\x1b_Gi=31,"), "{ASK:?}");
    assert!(ASK.ends_with("\x1b[c"), "the sentinel is asked for last");
    let answer = read_answer(b"\x1b_Gi=31;OK\x1b\\\x1b[?0u\x1b[?62;22c");
    assert_eq!(answer.graphics, Some(Ok(())));
    assert_eq!(answer.keyboard, Some(0));
    assert!(answer.da1);
}

#[test]
fn the_existing_three_questions_are_read_from_the_same_bytes() {
    assert!(ask().ends_with(ASK.as_bytes()));
    let bytes = b"\x1b[?1016;1$y\x1b]11;rgb:1e1e/1e1e/2e2e\x1b\\\x1b[6;16;8t\
        \x1b_Gi=31;OK\x1b\\\x1b[?0u\x1b[?62;22c";
    let answer = read_answer(bytes);
    assert_eq!(answer.graphics, Some(Ok(())), "{bytes:?}");
    assert_eq!(answer.keyboard, Some(0));
    assert!(answer.da1);
    assert!(answer.pixel_mouse.is_some(), "{bytes:?}");
    assert!(answer.background.is_some(), "{bytes:?}");
    assert_eq!(answer.cell, Some((8, 16)));
}

#[test]
fn what_is_not_utf_8_in_an_error_is_replaced() {
    let answer = read_answer(b"\x1b_Gi=31;E\xff!\x1b\\\x1b[?62c");
    assert_eq!(answer.graphics, Some(Err("E\u{fffd}!".to_string())));
}

#[test]
fn a_fact_stands_in_its_column_and_more_of_it_under_it() {
    let said = say("engine", "x");
    let under = more("y");
    assert!(said.starts_with("engine:"));
    assert_eq!(said.find('x'), under.find('y'));
    assert_eq!(
        downloads_line(&Ok("/home/u/Downloads".to_string())),
        say("downloads", "/home/u/Downloads")
    );
    assert_eq!(profile_line(&Kept::Temporary).find("temporary"), said.find('x'));
    assert!(shm_line(&Err("no".to_string()), "yes", "cannot write").contains("(no)"));
    let config = config_line(&Provenance {
        config: Some("/c".to_string()),
        found: false,
        settings: 0,
        engine_from: None,
    });
    assert!(config.contains("/c"), "{config}");
}

#[test]
fn an_engine_that_answered_and_a_terminal_that_draws_are_what_is_needed() {
    let (lines, ok) = engine_lines(&Started::Nowhere("none on PATH".to_string()), &None);
    assert!(!ok);
    assert!(lines[0].contains("none on PATH"), "{lines:?}");
    let (_, ok) = engine_lines(
        &Started::Answered {
            path: "/usr/bin/chromium".to_string(),
            took: "0.4".to_string(),
            product: Some("Chrome/1".to_string()),
        },
        &None,
    );
    assert!(ok);
    let (_, ok) = terminal_lines(&Asked::NotATerminal, None);
    assert!(ok, "nothing was asked, so nothing is wrong");
    let (_, ok) = terminal_lines(&Asked::Cannot("no tty".to_string()), None);
    assert!(!ok);
    let answer = read_answer(b"\x1b_Gi=31;OK\x1b\\\x1b[?0u\x1b[?62;22c");
    let (lines, ok) = terminal_lines(&Asked::Heard(answer), Some((80, 24)));
    assert!(ok, "{lines:?}");
    let mute = read_answer(b"\x1b[?62;22c");
    let (_, ok) = terminal_lines(&Asked::Heard(mute), Some((80, 24)));
    assert!(!ok);
}
