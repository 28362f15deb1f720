use blinkterm::engine::{
    check, describe_tail, first_page, flags, group_alive, group_target, keep_line, locate,
    may_signal, places, Status, CANDIDATES, ENGINE_ENV, HEAD, TAIL,
};
use blinkterm::json::Json;

#[test]
fn the_flags_are_the_ones_that_were_measured() {
    let plain = flags(false);
    assert_eq!(
        plain,
        vec![
            "--headless",
            "--disable-gpu",
            "--disable-dev-shm-usage",
            "--ozone-platform=headless",
            "--remote-debugging-pipe",
            "about:blank",
        ]
    );
    for flags in [flags(false), flags(true)] {
        assert!(
            !flags
                .iter()
                .any(|f| f.starts_with("--remote-debugging-port")),
            "a port is open to every process on the machine"
        );
        assert!(
            !flags
                .iter()
                .any(|f| f.starts_with("--remote-allow-origins")),
            "and origins are a question only a port asks"
        );
    }
    assert!(!plain.contains(&"--no-sandbox"), "not unless we are root");
    assert!(flags(true).contains(&"--no-sandbox"));
    assert_eq!(
        flags(true).last(),
        Some(&"about:blank"),
        "the url goes last"
    );
}

#[test]
fn a_page_is_picked_out_of_the_target_list() {
    let reply = Json::parse(
        r#"{"targetInfos":[
          {"targetId":"B","type":"browser","title":"","url":""},
          {"targetId":"AB","type":"page","title":"about:blank","url":"about:blank"}
        ]}"#,
    )
    .expect("the test's own JSON");
    assert_eq!(first_page(&reply), Ok("AB".into()));
    let none = Json::parse(r#"{"targetInfos":[]}"#).expect("JSON");
    assert!(first_page(&none).is_err());
    let browser = Json::parse(r#"{"targetInfos":[{"type":"browser"}]}"#).expect("JSON");
    assert!(first_page(&browser).is_err());
    assert!(first_page(&Json::Null).is_err());
}



#[test]
fn a_missing_engine_is_a_sentence_that_names_what_was_looked_for() {
    // An override that names nothing, which is the case a person hits after a
    // typo, and the message has to say which variable.
    let failed = locate(Some("/nonexistent/chromium"), None).unwrap_err();
    assert!(failed.contains("/nonexistent/chromium"), "{failed}");
    assert!(failed.contains(ENGINE_ENV), "{failed}");
}

#[test]
fn an_override_that_names_a_real_program_is_taken() {
    let found = locate(Some("/bin/sh"), Some("/bin/sh".to_string()));
    assert_eq!(found.as_deref(), Ok("/bin/sh"));
    assert_eq!(
        places(Some("/bin/sh"), Some("/usr/bin"))[0],
        "/bin/sh",
        "it is looked at first"
    );
    assert_eq!(
        places(Some("shell"), Some("/a:/b")),
        vec!["shell", "/a/shell", "/b/shell"]
    );
}

#[test]
fn a_target_that_was_never_recorded_kills_nothing() {
    assert!(!may_signal(0), "this program's own group");
    assert!(!may_signal(-1), "every process there is");
    assert!(
        !group_alive(0, true, false),
        "a pid with no group of its own is not a group"
    );
}

#[test]
fn every_name_is_looked_for_in_every_directory_and_none_is_named_when_none_is_there() {
    let tried = places(None, Some("/a:/b"));
    assert_eq!(tried.len(), 2 * CANDIDATES.len());
    for name in CANDIDATES {
        assert!(tried.contains(&format!("/a/{name}")), "{tried:?}");
        assert!(tried.contains(&format!("/b/{name}")), "{tried:?}");
    }
    assert_eq!(places(None, None), Vec::<String>::new());
    let why = locate(None, None).expect_err("nothing found");
    for name in CANDIDATES {
        assert!(why.contains(name), "{why}");
    }
}

#[test]
fn only_a_group_of_its_own_is_signalled() {
    // The engine leads its own group: the negative of it is the whole group.
    assert_eq!(group_target(41, 41, 7), -41);
    // In our group, signalling the group would be signalling ourselves.
    assert_eq!(group_target(41, 7, 7), 41);
    assert!(may_signal(41));
    assert!(may_signal(-41));
}

#[test]
fn a_group_is_alive_unless_there_is_no_such_group() {
    assert!(group_alive(-41, true, false));
    assert!(!group_alive(-41, false, true));
    assert!(group_alive(-41, false, false), "not ours to signal is not gone");
}

#[test]
fn the_first_and_the_last_lines_an_engine_said_are_kept() {
    let mut tail: Vec<String> = Vec::new();
    for n in 0..HEAD + TAIL + 5 {
        keep_line(&mut tail, format!("line {n}"));
    }
    assert_eq!(tail.len(), HEAD + TAIL);
    assert_eq!(tail[0], "line 0");
    assert_eq!(tail[HEAD - 1], format!("line {}", HEAD - 1));
    assert_eq!(tail[HEAD], format!("line {}", HEAD + 5));
    assert_eq!(
        tail.last().map(String::as_str),
        Some(format!("line {}", HEAD + TAIL + 4).as_str())
    );
}

#[test]
fn an_engine_that_ended_is_described_with_its_own_last_words() {
    let said = vec!["first".to_string(), "last".to_string()];
    assert_eq!(check(&Status::Running, &said), Ok(()));
    let why = check(&Status::Exited("exit status: 1".to_string()), &said).expect_err("gone");
    assert!(
        why.starts_with("the browser engine exited (exit status: 1)"),
        "{why}"
    );
    assert!(why.contains("first") && why.contains("last"), "{why}");
    assert!(why.ends_with(&describe_tail(&said)), "{why}");
    assert_eq!(
        check(&Status::Unknown("no child".to_string()), &said),
        Err("cannot tell whether the engine is running: no child".to_string())
    );
}
