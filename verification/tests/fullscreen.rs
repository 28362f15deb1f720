use blinkterm::fit::{Cells, Metrics};
use blinkterm::fullscreen::{
    exit_params, heard, layout, watch_expression, watch_params, Heard, Layout, EXIT,
};
use blinkterm::json::Json;

#[test]
fn the_layout_is_the_whole_pane_only_while_fullscreen_and_nothing_owns_the_row() {
    assert_eq!(layout(true, false), Layout { whole: true });
    assert_eq!(layout(true, true), Layout { whole: false });
    assert_eq!(layout(false, false), Layout { whole: false });
    assert_eq!(layout(false, true), Layout { whole: false });
    assert_eq!(Layout::default(), layout(false, false));
}

#[test]
fn the_page_starts_on_row_two_less_a_row_or_on_row_one_with_them_all() {
    let metrics = Metrics {
        cols: 80,
        rows: 24,
        cell: (8, 16),
    };
    let under = Layout { whole: false };
    assert_eq!((under.page_row(), under.reserved_rows()), (2, 1));
    assert_eq!(under.cells(metrics), Cells { cols: 80, rows: 23 });
    assert_eq!(under.pixels(metrics), (640, 368));
    assert_eq!(under.pixels(metrics), metrics.usable_pixels());
    let whole = Layout { whole: true };
    assert_eq!((whole.page_row(), whole.reserved_rows()), (1, 0));
    assert_eq!(whole.cells(metrics), Cells { cols: 80, rows: 24 });
    assert_eq!(whole.pixels(metrics), (640, 384));
    // A pane of nothing is still a page of something.
    let none = Metrics {
        cols: 0,
        rows: 0,
        cell: (8, 16),
    };
    assert_eq!(whole.cells(none), Cells { cols: 1, rows: 1 });
    assert_eq!(whole.pixels(none), (8, 16));
}

#[test]
fn a_reply_is_in_out_or_gone_and_an_error_or_a_stranger_is_gone() {
    let value = |word: &str| {
        Ok(Json::object(vec![(
            "result",
            Json::object(vec![
                ("type", Json::string("string")),
                ("value", Json::string(word)),
            ]),
        )]))
    };
    assert_eq!(heard(&value("in")), Heard::In);
    assert_eq!(heard(&value("out")), Heard::Out);
    assert_eq!(heard(&value("stale")), Heard::Gone);
    assert_eq!(heard(&value("\x1b]0;x\x07")), Heard::Gone);
    assert_eq!(
        heard(&Err(
            "Runtime.evaluate: Inspected target navigated or closed".to_string()
        )),
        Heard::Gone
    );
    let thrown =
        Json::parse(r#"{"result":{"type":"object"},"exceptionDetails":{"text":"Uncaught"}}"#)
            .expect("JSON");
    assert_eq!(heard(&Ok(thrown)), Heard::Gone);
    assert_eq!(heard(&Ok(Json::empty())), Heard::Gone);
}

#[test]
fn the_watch_expression_names_the_expected_state_and_the_world() {
    assert!(watch_expression(false).contains("!!document.fullscreenElement !== false"));
    assert!(watch_expression(true).contains("!!document.fullscreenElement !== true"));
    let params = watch_params(42, true);
    assert_eq!(params.get("contextId").and_then(Json::as_i64), Some(42));
    assert_eq!(
        params.get("awaitPromise").and_then(Json::as_bool),
        Some(true)
    );
    assert_eq!(
        params.get("returnByValue").and_then(Json::as_bool),
        Some(true)
    );
    assert_eq!(
        params.get("expression").and_then(Json::as_str),
        Some(watch_expression(true).as_str())
    );
    assert_eq!(
        exit_params(Some(7)).get("contextId").and_then(Json::as_i64),
        Some(7)
    );
    assert_eq!(exit_params(None).get("contextId"), None);
    assert_eq!(
        exit_params(None).get("expression").and_then(Json::as_str),
        Some(EXIT)
    );
}
