use blinkterm::cdp::{
    attach_params, attached, detach_params, framed, message, outcome, split_messages, wrote,
    Mailbox, Routes, Writing, Wrote, MAX_MESSAGE,
};
use blinkterm::json::Json;

/// Sort a message the test wrote as text, as the reader would once it had
/// parsed it.
fn sort_text(mailbox: &mut Mailbox, text: &str) {
    if let Some(value) = Json::parse(text) {
        mailbox.sort(&value);
    }
}

/// A mailbox in which a reply is waited for.
fn awaiting(id: i64) -> Mailbox {
    let mut mailbox = Mailbox::default();
    mailbox.want(id);
    mailbox
}

/// How much the mailbox is holding on to: replies, and claims on them.
fn held(mailbox: &Mailbox) -> (usize, usize) {
    (mailbox.replies_held(), mailbox.replies_wanted())
}

#[test]
fn a_reply_goes_to_the_call_that_asked_and_an_event_to_the_queue() {
    let mut mailbox = Mailbox::default();
    mailbox.want(4);
    sort_text(&mut mailbox, r#"{"id":4,"result":{"frameId":"A"}}"#);
    sort_text(
        &mut mailbox,
        r#"{"method":"Page.screencastFrame","params":{"data":"x","sessionId":9}}"#,
    );
    sort_text(&mut mailbox, r#"{"neither":true}"#);

    assert_eq!(
        mailbox.take(4).and_then(|r| r
            .get2("result", "frameId")
            .and_then(Json::as_str)
            .map(str::to_string)),
        Some("A".to_string())
    );
    assert_eq!(mailbox.events.len(), 1);
    assert_eq!(mailbox.events[0].method, "Page.screencastFrame");
    assert_eq!(
        mailbox.events[0]
            .params
            .get("sessionId")
            .and_then(Json::as_i64),
        Some(9)
    );
}

#[test]
fn the_event_queue_drops_the_oldest_rather_than_growing_forever() {
    let mut mailbox = Mailbox::default();
    for i in 0..600 {
        sort_text(
            &mut mailbox,
            &format!(r#"{{"method":"Page.screencastFrame","params":{{"n":{i}}}}}"#),
        );
    }
    assert_eq!(mailbox.events.len(), 512);
    assert_eq!(
        mailbox.events[0].params.get("n").and_then(Json::as_i64),
        Some(88),
        "the newest frames are the ones kept"
    );
}

#[test]
fn an_error_reply_is_an_error_and_not_a_result() {
    let mut mailbox = Mailbox::default();
    mailbox.want(1);
    sort_text(
        &mut mailbox,
        r#"{"id":1,"error":{"code":-32000,"message":"Cannot navigate to invalid URL"}}"#,
    );
    let reply = mailbox.take(1).expect("a reply");
    assert_eq!(
        reply.get2("error", "message").and_then(Json::as_str),
        Some("Cannot navigate to invalid URL")
    );
}

#[test]
fn an_engines_refusal_is_plain_text() {
    let reply = Json::parse(
        r#"{"id":1,"error":{"code":-32000,"message":"Cannot \u001b[2J navigate"}}"#,
    )
    .expect("the test's own JSON");
    assert_eq!(
        outcome("Page.navigate", &reply),
        Err("Page.navigate: Cannot [2J navigate".to_string())
    );
    let bare = Json::parse(r#"{"id":1,"error":{}}"#).expect("the test's own JSON");
    assert_eq!(
        outcome("Page.navigate", &bare),
        Err("Page.navigate: the engine refused it".to_string())
    );
}

#[test]
fn nothing_is_kept_for_a_command_nobody_will_come_back_for() {
    let mut mailbox = Mailbox::default();
    // What a notification leaves behind: an id spent and never claimed.
    sort_text(&mut mailbox, r#"{"id":7,"result":{}}"#);
    assert!(
        mailbox.replies.is_empty(),
        "the reply to a notification was filed"
    );
    assert!(mailbox.wanted.is_empty());
}

#[test]
fn a_call_that_asked_still_gets_its_reply() {
    let mut mailbox = Mailbox::default();
    mailbox.want(3);
    sort_text(&mut mailbox, r#"{"id":3,"result":{"data":"png"}}"#);
    let reply = mailbox.take(3).expect("the reply the call asked for");
    assert_eq!(
        reply.get2("result", "data").and_then(Json::as_str),
        Some("png")
    );
    assert_eq!(
        (mailbox.replies.len(), mailbox.wanted.len()),
        (0, 0),
        "taking a reply ends the waiting for it"
    );
}

#[test]
fn a_pending_dropped_before_its_reply_leaves_nothing_behind() {
    let mut mailbox = awaiting(11);
    mailbox.forget(11);
    // The tab was switched away from; the engine answers all the same.
    sort_text(&mut mailbox, r#"{"id":11,"result":{"data":"a megabyte"}}"#);
    assert_eq!(held(&mailbox), (0, 0));
}

#[test]
fn a_pending_dropped_after_its_reply_takes_the_reply_with_it() {
    let mut mailbox = awaiting(12);
    sort_text(&mut mailbox, r#"{"id":12,"result":{"data":"a megabyte"}}"#);
    assert_eq!(held(&mailbox), (1, 1), "the reply was wanted when it came");
    mailbox.forget(12);
    assert_eq!(held(&mailbox), (0, 0));
}

#[test]
fn ten_thousand_acknowledgements_leave_an_empty_mailbox() {
    // Three minutes of screencast at sixty frames a second.
    let mut mailbox = Mailbox::default();
    for id in 1..=10_000 {
        sort_text(&mut mailbox, &format!(r#"{{"id":{id},"result":{{}}}}"#));
    }
    assert_eq!(mailbox.replies.len(), 0);
    assert_eq!(mailbox.wanted.len(), 0);
}

#[test]
fn a_still_among_the_acknowledgements_is_the_one_thing_kept() {
    let mut mailbox = awaiting(5_000);
    for id in 1..=10_000 {
        sort_text(
            &mut mailbox,
            &format!(r#"{{"id":{id},"result":{{"n":{id}}}}}"#),
        );
    }
    assert_eq!(
        mailbox.replies.len(),
        1,
        "only the one reply somebody asked for"
    );
    assert_eq!(
        mailbox
            .take(5_000)
            .and_then(|r| r.get2("result", "n").and_then(Json::as_i64)),
        Some(5_000)
    );
    mailbox.forget(5_000);
    assert_eq!(held(&mailbox), (0, 0));
}

#[test]
fn an_answer_is_what_the_reply_means_or_why_there_is_none() {
    let mut mailbox = awaiting(1);
    assert_eq!(mailbox.answer(1, "Page.enable"), None, "not yet");
    sort_text(&mut mailbox, r#"{"id":1,"result":{"ok":true}}"#);
    let answer = mailbox.answer(1, "Page.enable").expect("the reply");
    assert_eq!(answer.expect("a result").to_string(), r#"{"ok":true}"#);
    assert_eq!(held(&mailbox), (0, 0));

    mailbox.want(2);
    assert_eq!(mailbox.answer_within(2, "Page.enable", false, 3), None);
    assert_eq!(
        mailbox.answer_within(2, "Page.enable", true, 3),
        Some(Err("Page.enable: no answer in 3 seconds".to_string()))
    );
    assert_eq!(held(&mailbox), (0, 0), "the question was withdrawn");

    mailbox.want(3);
    mailbox.end("the pipe closed");
    mailbox.end("something later");
    assert_eq!(
        mailbox.answer_within(3, "Page.enable", false, 3),
        Some(Err("Page.enable: the pipe closed".to_string())),
        "the first reason stands"
    );
    assert!(mailbox.take_events().is_empty());
}

// ---- the framing ----

#[test]
fn a_message_that_arrives_in_two_reads_is_one_message() {
    let mut buf = br#"{"id":1,"res"#.to_vec();
    assert_eq!(split_messages(&mut buf), Ok(vec![]), "not ended yet");
    assert_eq!(buf, br#"{"id":1,"res"#, "and kept for the next read");
    buf.extend_from_slice(b"ult\":{}}\0{\"id\":2");
    assert_eq!(
        split_messages(&mut buf),
        Ok(vec![r#"{"id":1,"result":{}}"#.to_string()])
    );
    assert_eq!(buf, br#"{"id":2"#, "the start of the next one stays");
}

#[test]
fn two_messages_in_one_read_are_two_messages() {
    let mut buf = b"{\"a\":1}\0{\"b\":2}\0".to_vec();
    assert_eq!(
        split_messages(&mut buf),
        Ok(vec![r#"{"a":1}"#.to_string(), r#"{"b":2}"#.to_string()])
    );
    assert!(buf.is_empty());
}

#[test]
fn an_empty_message_is_skipped_and_a_message_that_is_not_text_is_dropped() {
    let mut buf = b"\0\0{\"a\":1}\0\xff\xfe\0{\"b\":2}\0".to_vec();
    assert_eq!(
        split_messages(&mut buf),
        Ok(vec![r#"{"a":1}"#.to_string(), r#"{"b":2}"#.to_string()])
    );
    assert!(buf.is_empty());
}

#[test]
fn sixteen_megabytes_with_no_end_is_an_error_and_not_an_allocation() {
    let mut buf = vec![b'x'; MAX_MESSAGE + 1];
    assert!(split_messages(&mut buf).is_err());
    let mut buf = vec![b'x'; MAX_MESSAGE];
    assert_eq!(
        split_messages(&mut buf),
        Ok(vec![]),
        "exactly the ceiling is still a message arriving"
    );
}

#[test]
fn what_is_framed_splits_back() {
    let text = message(9, Some("S1"), "Page.navigate", Json::string("a\u{0}b"));
    let mut buf = framed(&text);
    assert_eq!(buf.last(), Some(&0));
    assert_eq!(split_messages(&mut buf), Ok(vec![text]));
    assert!(buf.is_empty());
}

// ---- the routing ----

/// Routes with the browser's mailbox and those of some sessions, in order.
fn routes(sessions: &[&str]) -> Routes {
    let mut routes = Routes::new();
    routes.register(None).expect("the browser");
    for session in sessions {
        routes
            .register(Some(session.to_string()))
            .expect("a session");
    }
    routes
}

fn methods(routes: &Routes, i: usize) -> Vec<String> {
    routes.posts[i]
        .mailbox
        .events
        .iter()
        .map(|e| e.method.clone())
        .collect()
}

#[test]
fn a_sessions_message_goes_to_that_session_and_nowhere_else() {
    let mut mailboxes = routes(&["S1", "S2"]);
    mailboxes.posts[1].mailbox.want(5);

    assert_eq!(
        mailboxes.route(r#"{"id":5,"sessionId":"S1","result":{"ok":true}}"#),
        [1]
    );
    mailboxes.route(r#"{"method":"Page.loadEventFired","sessionId":"S1","params":{}}"#);
    assert_eq!(
        mailboxes.route(r#"{"method":"Target.targetCreated","params":{"targetInfo":{}}}"#),
        [0]
    );
    // A session nobody holds, and something that is not JSON at all.
    assert!(mailboxes
        .route(r#"{"method":"Page.loadEventFired","sessionId":"S9","params":{}}"#)
        .is_empty());
    assert!(mailboxes.route("not json at all").is_empty());

    assert!(mailboxes.posts[1].mailbox.take(5).is_some());
    assert_eq!(methods(&mailboxes, 1), ["Page.loadEventFired"]);
    assert_eq!(methods(&mailboxes, 0), ["Target.targetCreated"]);
    assert!(
        methods(&mailboxes, 2).is_empty(),
        "S2 heard somebody else's news"
    );
}

#[test]
fn the_screencasts_own_session_number_is_not_a_route() {
    // `params.sessionId` is the screencast's integer; the route is the
    // string at the top. A frame with no top-level session is the browser's.
    let mut mailboxes = routes(&["S1"]);
    mailboxes.route(
        r#"{"method":"Page.screencastFrame","sessionId":"S1","params":{"sessionId":3,"data":"x"}}"#,
    );
    assert_eq!(methods(&mailboxes, 1), ["Page.screencastFrame"]);
    assert!(methods(&mailboxes, 0).is_empty());
}

#[test]
fn a_detach_ends_the_session_it_names_and_is_still_the_browsers_news() {
    let mut mailboxes = routes(&["S1", "S2"]);
    mailboxes.route(
        r#"{"method":"Target.detachedFromTarget","params":{"sessionId":"S1","targetId":"T1"}}"#,
    );
    assert_eq!(
        mailboxes.posts[1].mailbox.ended.as_deref(),
        Some("the engine detached from the target")
    );
    assert_eq!(mailboxes.posts[2].mailbox.ended, None);
    assert_eq!(mailboxes.posts[0].mailbox.ended, None);
    assert_eq!(methods(&mailboxes, 0), ["Target.detachedFromTarget"]);
}

#[test]
fn a_command_names_its_session_and_the_browsers_names_none() {
    let page = message(3, Some("S1"), "Page.enable", Json::empty());
    let parsed = Json::parse(&page).expect("JSON");
    assert_eq!(parsed.get("sessionId").and_then(Json::as_str), Some("S1"));
    assert_eq!(parsed.get("id").and_then(Json::as_i64), Some(3));
    assert_eq!(
        parsed.get("method").and_then(Json::as_str),
        Some("Page.enable")
    );

    let browser = message(4, None, "Browser.getVersion", Json::empty());
    let parsed = Json::parse(&browser).expect("JSON");
    assert_eq!(parsed.get("sessionId"), None);
    assert_eq!(parsed.get("id").and_then(Json::as_i64), Some(4));
}

#[test]
fn when_the_pipe_ends_every_session_hears_and_none_is_registered() {
    let mut mailboxes = routes(&["S1"]);
    mailboxes.end_all("the engine closed the pipe");
    for post in &mailboxes.posts {
        assert_eq!(
            post.mailbox.ended.as_deref(),
            Some("the engine closed the pipe")
        );
    }
    assert_eq!(
        mailboxes.register(Some("S2".to_string())),
        Err("the engine closed the pipe".to_string())
    );
}

#[test]
fn one_session_has_one_mailbox_and_a_key_finds_it() {
    let mut mailboxes = routes(&["S1"]);
    assert_eq!(
        mailboxes.register(None),
        Err("the browser already has a client on this pipe".to_string())
    );
    assert_eq!(
        mailboxes.register(Some("S1".to_string())),
        Err("session S1 already has a client".to_string())
    );
    assert_eq!(mailboxes.place(1), 1);
    mailboxes.deregister(1);
    assert_eq!(mailboxes.posts.len(), 1);
    let key = mailboxes.register(Some("S1".to_string())).expect("free again");
    assert_eq!(key, 2, "a later registration is told from an earlier one");
    mailboxes.deregister(1);
    assert_eq!(mailboxes.posts.len(), 2, "an old key closes nothing");
}

#[test]
fn attaching_and_detaching_name_the_target_and_the_session() {
    assert_eq!(
        attach_params("T1").to_string(),
        r#"{"targetId":"T1","flatten":true}"#
    );
    let reply = Json::parse(r#"{"sessionId":"S1"}"#).expect("JSON");
    assert_eq!(attached(&reply, "T1"), Ok("S1".to_string()));
    assert!(attached(&Json::empty(), "T1").is_err());
    assert_eq!(detach_params("S1").to_string(), r#"{"sessionId":"S1"}"#);
}

#[test]
fn a_write_goes_on_until_all_of_it_has_gone() {
    assert_eq!(wrote(0, 10, Wrote::Bytes(4)), Writing::Again(4));
    assert_eq!(wrote(6, 10, Wrote::Bytes(4)), Writing::Done);
    assert_eq!(wrote(6, 10, Wrote::Interrupted), Writing::Again(6));
    assert_eq!(wrote(6, 10, Wrote::Room), Writing::Again(6));
    assert_eq!(
        wrote(0, 10, Wrote::Full),
        Writing::Stop {
            why: "the engine is not reading its pipe".to_string(),
            close: false
        }
    );
    assert_eq!(
        wrote(6, 10, Wrote::Gone),
        Writing::Stop {
            why: "the engine closed its end of the pipe".to_string(),
            close: true
        },
        "half a message is on the pipe"
    );
    assert_eq!(
        wrote(6, 10, Wrote::Failed("no space".to_string())),
        Writing::Stop {
            why: "cannot write to the engine's pipe: no space".to_string(),
            close: true
        }
    );
}
