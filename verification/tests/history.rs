use blinkterm::history::{rank, Entry, History, Walk, CAP, COMPACT_AT};

fn urls(history: &History) -> Vec<&str> {
    history
        .entries()
        .iter()
        .map(|entry| entry.url.as_str())
        .collect()
}

fn visit(history: &mut History, url: &str, title: &str, now: u64) {
    let _ = history.visited(url, title, now);
}

#[test]
fn a_visit_moves_the_page_to_the_front_and_counts_it() {
    let mut history = History::in_memory();
    visit(&mut history, "https://a.example/", "A", 1);
    visit(&mut history, "https://b.example/", "B", 2);
    assert_eq!(urls(&history), ["https://b.example/", "https://a.example/"]);
    visit(&mut history, "https://a.example/", "A", 3);
    assert_eq!(urls(&history), ["https://a.example/", "https://b.example/"]);
    let a = &history.entries()[0];
    assert_eq!((a.visits, a.last), (2, 3));
}

#[test]
fn a_title_that_is_empty_does_not_replace_the_one_known() {
    let mut history = History::in_memory();
    visit(&mut history, "https://a.example/", "The page", 1);
    visit(&mut history, "https://a.example/", "", 2);
    assert_eq!(history.entries()[0].title, "The page");
    visit(
        &mut history,
        "https://a.example/",
        "Renamed\t\x1b]0;x\x07",
        3,
    );
    assert_eq!(history.entries()[0].title, "Renamed ]0;x");
}

#[test]
fn the_list_is_cut_at_the_cap() {
    let mut history = History::in_memory();
    for n in 0..CAP + 10 {
        visit(
            &mut history,
            &format!("https://example.com/{n}"),
            "",
            n as u64,
        );
    }
    assert_eq!(history.entries().len(), CAP);
    assert_eq!(
        history.entries()[0].url,
        format!("https://example.com/{}", CAP + 9)
    );
    assert_eq!(
        history.entries()[CAP - 1].url,
        "https://example.com/10",
        "the oldest went"
    );
}

#[test]
fn a_line_round_trips_and_a_broken_one_is_skipped() {
    let entry = Entry {
        url: "https://example.com/a?b=c".to_string(),
        title: "A page — with a title".to_string(),
        visits: 3,
        last: 1_700_000_000,
    };
    let line = entry.line();
    assert!(line.ends_with('\n'));
    assert_eq!(
        History::parse_line(line.trim_end_matches('\n')),
        Some(entry)
    );
    // An empty title is a title.
    assert_eq!(
        History::parse_line("1\t1\thttps://x.example/\t").map(|e| e.title),
        Some(String::new())
    );
    for broken in [
        "",
        "garbage",
        "1\t1\thttps://x.example/",
        "x\t1\thttps://x.example/\tT",
        "1\t-1\thttps://x.example/\tT",
        "1\t1\tabout:blank\tT",
        "1\t1\thttps://x.example/ y\tT",
    ] {
        assert_eq!(History::parse_line(broken), None, "{broken:?}");
    }
}

#[test]
fn the_log_is_appended_to_and_folded_on_load() {
    let path = "/profile/history".to_string();
    let (mut history, rewrite) = History::load("", path.clone());
    assert!(history.entries().is_empty(), "no file is no history");
    assert!(!rewrite);
    let mut log = String::new();
    for (url, title, now) in [
        ("https://a.example/", "A", 1),
        ("https://b.example/", "B", 2),
        ("https://a.example/", "", 3),
    ] {
        log.push_str(&history.visited(url, title, now).expect("a line for the log"));
    }
    assert_eq!(log.lines().count(), 3, "one line a visit: {log:?}");

    let (again, rewrite) = History::load(&log, path.clone());
    assert!(!rewrite);
    assert_eq!(again.entries(), history.entries());
    assert_eq!(again.entries()[0].title, "A", "the title kept from before");
    assert_eq!(again.entries()[0].visits, 2);

    // A line cut short by a crash is not read, and the log is written
    // again so that the next visit starts a line of its own.
    log.push_str("4\t1\thttps://c.exa");
    let (mut again, rewrite) = History::load(&log, path.clone());
    assert!(rewrite);
    assert_eq!(urls(&again), ["https://a.example/", "https://b.example/"]);
    let mut log = again.compacted();
    log.push_str(&again.visited("https://c.example/", "C", 5).expect("a line"));
    let (reread, _) = History::load(&log, path);
    assert_eq!(
        urls(&reread),
        [
            "https://c.example/",
            "https://a.example/",
            "https://b.example/"
        ]
    );
}

#[test]
fn a_long_log_is_compacted_on_load() {
    let path = "/profile/history".to_string();
    let mut log = String::new();
    for n in 0..COMPACT_AT {
        // Two lines for every url: half as many entries as lines.
        let entry = Entry {
            url: format!("https://example.com/{}", n / 2),
            title: String::new(),
            visits: (n % 2 + 1) as u32,
            last: n as u64,
        };
        log.push_str(&entry.line());
    }
    let (history, rewrite) = History::load(&log, path.clone());
    assert_eq!(history.entries().len(), CAP);
    assert_eq!(
        history.entries()[0].url,
        format!("https://example.com/{}", COMPACT_AT / 2 - 1)
    );
    assert_eq!(history.entries()[0].visits, 2);
    assert!(rewrite);
    let written = history.compacted();
    assert_eq!(written.lines().count(), CAP, "one line an entry now");
    let (again, rewrite) = History::load(&written, path);
    assert!(!rewrite);
    assert_eq!(again.entries(), history.entries());
}

#[test]
fn an_in_memory_history_writes_nothing() {
    let mut history = History::in_memory();
    visit(&mut history, "https://example.com/", "", 1);
    assert!(history.path.is_none());
    assert_eq!(history.entries().len(), 1);
}

#[test]
fn a_completion_is_the_rest_of_the_most_visited_matching_url() {
    let mut history = History::in_memory();
    visit(&mut history, "https://example.com/", "", 1);
    for now in 2..7 {
        visit(&mut history, "https://www.Example.org/docs", "", now);
    }
    visit(&mut history, "https://exact.example/", "", 8);
    // Five visits beat one, even an older five.
    assert_eq!(history.complete("exa"), Some("mple.org/docs".to_string()));
    // `www.` and `https://` are not what anybody types, and the case is
    // the url's own.
    assert_eq!(history.complete("Exam"), Some("ple.org/docs".to_string()));
    assert_eq!(
        history.complete("https://www.exam"),
        Some("ple.org/docs".to_string())
    );
    assert_eq!(history.complete("example.c"), Some("om/".to_string()));
    // Ties go to the newest: one visit each, and the later one wins.
    visit(&mut history, "https://example.co.uk/", "", 9);
    assert_eq!(history.complete("example.c"), Some("o.uk/".to_string()));
    // Nothing for a url typed out in full, nothing typed, a space, or a
    // host nobody has visited.
    assert_eq!(history.complete("example.com/"), None);
    assert_eq!(history.complete(""), None);
    assert_eq!(history.complete("exa mple"), None);
    assert_eq!(history.complete("nowhere"), None);

    // An http site is not offered for a bare host, which would go to it
    // over https, but is once http is typed.
    let mut history = History::in_memory();
    visit(&mut history, "http://plain.example/", "", 1);
    assert_eq!(history.complete("pla"), None);
    assert_eq!(
        history.complete("http://pla"),
        Some("in.example/".to_string())
    );
}

#[test]
fn matches_rank_prefix_then_substring_then_title() {
    let mut history = History::in_memory();
    visit(&mut history, "https://docs.example/", "Home", 1);
    visit(&mut history, "https://example.com/rust", "Guide", 2);
    visit(&mut history, "https://example.org/", "The Rust book", 3);
    visit(&mut history, "https://rust.example/", "", 4);
    let found: Vec<&str> = history
        .matches("rust")
        .iter()
        .map(|entry| entry.url.as_str())
        .collect();
    assert_eq!(
        found,
        [
            "https://rust.example/",
            "https://example.com/rust",
            "https://example.org/",
        ]
    );
    assert_eq!(history.matches("").len(), 4, "nothing typed is everything");
    assert_eq!(history.matches("  ")[0].url, "https://rust.example/");
}

#[test]
fn a_walk_goes_up_through_matches_and_down_back_to_what_was_typed() {
    let mut history = History::in_memory();
    visit(&mut history, "https://a.example/", "", 1);
    visit(&mut history, "https://b.example/", "", 2);
    let mut walk = Walk::new(&history, "");
    assert_eq!(walk.down(), None, "nothing newer than what was typed");
    assert_eq!(walk.up().as_deref(), Some("https://b.example/"));
    assert_eq!(walk.up().as_deref(), Some("https://a.example/"));
    assert_eq!(walk.up(), None, "the oldest is where it stays");
    assert_eq!(walk.down().as_deref(), Some("https://b.example/"));
    assert_eq!(walk.down().as_deref(), Some(""), "what was typed, which was nothing");
    assert_eq!(walk.down(), None);

    let mut walk = Walk::new(&history, "a.ex");
    assert_eq!(walk.up().as_deref(), Some("https://a.example/"));
    assert_eq!(walk.up(), None);
    assert_eq!(walk.down().as_deref(), Some("a.ex"));
}

#[test]
fn only_web_and_file_pages_are_recorded() {
    for url in [
        "https://example.com/",
        "http://localhost:3000/",
        "file:///etc/hostname",
        "HTTPS://EXAMPLE.COM/",
    ] {
        assert!(History::records(url), "{url}");
    }
    for url in [
        "about:blank",
        "data:text/html,hi",
        "chrome-error://chromewebdata/",
        "https://",
        "https://a b/",
        "https://a\tb/",
        "https://a\u{202e}b/",
        "",
    ] {
        assert!(!History::records(url), "{url:?}");
    }
    let mut history = History::in_memory();
    visit(&mut history, "about:blank", "", 1);
    assert!(history.entries().is_empty());
}

#[test]
fn a_title_is_found_whatever_its_case_in_any_script() {
    let mut history = History::in_memory();
    visit(&mut history, "https://a.example/", "ÜBER UNS", 1);
    visit(&mut history, "https://b.example/", "About Us", 2);
    assert_eq!(history.matches("über")[0].url, "https://a.example/");
    assert_eq!(history.matches("Über").len(), 1);
    assert_eq!(history.matches("ABOUT")[0].url, "https://b.example/");
}

#[test]
fn keys_that_start_with_it_come_first_and_titles_last() {
    let chars = |texts: &[&str]| -> Vec<Vec<char>> {
        texts.iter().map(|text| text.chars().collect()).collect()
    };
    let keys = chars(&["x.example/", "the-rust.example/", "rust.example/", "y.example/", "rusty/"]);
    let titles = chars(&["on rust", "", "", "nothing", "rust"]);
    let wanted = ['r', 'u', 's', 't'];
    assert_eq!(rank(&keys, &titles, &wanted, &wanted), [2, 4, 1, 0]);
    assert_eq!(rank(&keys, &titles, &['q'], &['q']), [0usize; 0]);
}
