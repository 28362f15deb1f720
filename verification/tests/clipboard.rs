use blinkterm::base64::decode;
use blinkterm::clipboard::{one_line, osc52, selection, selection_params, MAX_COPY};
use blinkterm::json::Json;
use blinkterm::text::sanitize;

#[test]
fn a_copy_is_osc_52_to_the_clipboard_ended_by_st() {
    assert_eq!(osc52("hi"), Some(b"\x1b]52;c;aGk=\x1b\\".to_vec()));
    assert_eq!(osc52(""), Some(b"\x1b]52;c;\x1b\\".to_vec()));
}

#[test]
fn a_copy_over_the_limit_is_refused_whole() {
    assert!(osc52(&"a".repeat(MAX_COPY)).is_some());
    assert_eq!(osc52(&"a".repeat(MAX_COPY + 1)), None);
}

#[test]
fn the_selection_is_read_out_of_the_reply() {
    let reply = Json::parse(r#"{"result":{"type":"string","value":"some words"}}"#)
        .expect("the test's own JSON");
    assert_eq!(selection(&reply), Some("some words".to_string()));
    let empty = Json::parse(r#"{"result":{"type":"string","value":""}}"#).expect("JSON");
    assert_eq!(selection(&empty), Some(String::new()));
    let threw =
        Json::parse(r#"{"result":{"type":"object","subtype":"error"},"exceptionDetails":{}}"#)
            .expect("JSON");
    assert_eq!(selection(&threw), None);
    assert_eq!(
        selection_params()
            .get("returnByValue")
            .and_then(Json::as_bool),
        Some(true)
    );
}

#[test]
fn a_line_keeps_the_text_of_a_paste_and_none_of_its_breaks() {
    assert_eq!(one_line("https://x/\r\n"), "https://x/");
    assert_eq!(one_line("https://x/\n"), "https://x/");
    assert_eq!(one_line("a\tb"), "ab");
    assert_eq!(one_line("\x1b]0;x\x07example.com"), "]0;xexample.com");
    assert_eq!(one_line("exa\u{202e}mple\u{200b}.com"), "example.com");
    assert_eq!(one_line("line\u{2028}two"), "linetwo");
    assert_eq!(
        one_line("日本語 の url"),
        "日本語 の url",
        "spaces and CJK stay"
    );
    // What is left is what the row will show, unchanged.
    for pasted in ["a\r\nb\u{9b}c\u{feff}", "plain", "\t\n"] {
        let line = one_line(pasted);
        assert_eq!(sanitize(&line), line.as_str(), "{pasted:?}");
    }
}

/// The bytes are one clipboard store, and hold what was copied.
#[test]
fn a_terminal_reads_a_copy_as_a_clipboard_store() {
    for copied in ["hi", "日本語 and \x1b]0;x\x07 and a\nnewline", ""] {
        let bytes = osc52(copied).expect("under the limit");
        let body = bytes
            .strip_prefix(b"\x1b]52;c;")
            .and_then(|rest| rest.strip_suffix(b"\x1b\\"))
            .expect("one store");
        assert!(
            body.iter().all(|b| b.is_ascii_graphic()),
            "nothing of it reaches the screen"
        );
        assert_eq!(
            decode(body),
            Some(copied.as_bytes().to_vec()),
            "{copied:?}"
        );
    }
}
