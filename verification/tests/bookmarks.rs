use blinkterm::bookmarks::{Bookmark, Bookmarks, Change, Item, Toggled};

/// Where the bookmarks of a test say they are kept.
const PATH: &str = "/profile/bookmarks";

/// Toggle a bookmark against the file as it is now, and write what changed.
fn toggle(marks: &mut Bookmarks, file: &mut String, url: &str, title: &str) -> Toggled {
    let (toggled, change) = marks.toggle(url, title, Some(file.as_str()));
    match change {
        Change::Nothing => {}
        Change::Append(more) => file.push_str(&more),
        Change::Rewrite(whole) => *file = whole,
    }
    toggled
}

fn urls(marks: &Bookmarks) -> Vec<&str> {
    marks.all().into_iter().map(|m| m.url.as_str()).collect()
}

fn mark(url: &str, title: &str) -> Option<Bookmark> {
    Some(Bookmark {
        url: url.to_string(),
        title: title.to_string(),
    })
}

#[test]
fn a_line_is_a_url_and_maybe_a_title_and_anything_else_is_kept_as_it_is() {
    assert_eq!(
        Bookmarks::parse_line("https://example.com/\tExample Domain"),
        mark("https://example.com/", "Example Domain")
    );
    assert_eq!(
        Bookmarks::parse_line("https://a.example/notitle"),
        mark("https://a.example/notitle", "")
    );
    assert_eq!(
        Bookmarks::parse_line("https://a.example/\r"),
        mark("https://a.example/", ""),
        "a CRLF line with no title"
    );
    assert_eq!(
        Bookmarks::parse_line("https://a.example/\tA\r"),
        mark("https://a.example/", "A"),
        "a CRLF line with a title"
    );
    assert_eq!(
        Bookmarks::parse_line("https://a.example/\t\x1b]0;x\x07 a\tb "),
        mark("https://a.example/", "]0;x a b"),
        "a title is plain text on one line"
    );
    for other in ["# a comment", "", "about:blank\tx", "not a url", "  "] {
        assert_eq!(Bookmarks::parse_line(other), None, "{other:?}");
    }

    let file = "# mine\r\nhttps://a.example/\tA\r\n\nnonsense\nhttps://b.example/";
    let marks = Bookmarks::load(file, PATH.to_string());
    assert_eq!(urls(&marks), ["https://a.example/", "https://b.example/"]);
    assert_eq!(
        marks
            .items
            .iter()
            .filter(|i| matches!(i, Item::Other(_)))
            .count(),
        3
    );
}

#[test]
fn a_bookmark_toggles_on_and_off_and_the_row_is_told_which() {
    let mut marks = Bookmarks::load("", PATH.to_string());
    let mut file = String::new();
    assert_eq!(
        toggle(&mut marks, &mut file, "https://example.com/", "Example"),
        Toggled::Added
    );
    assert!(marks.has("https://example.com/"));
    assert_eq!(
        toggle(&mut marks, &mut file, "https://example.com/", "Example"),
        Toggled::Removed
    );
    assert!(!marks.has("https://example.com/"));
    assert!(Bookmarks::load(&file, PATH.to_string()).all().is_empty());
}

#[test]
fn adding_appends_one_line_and_removing_rewrites_without_it_and_keeps_the_comments() {
    let before = "# mine\r\nhttps://a.example/\tA\r\n\njunk here\nhttps://b.example/";
    let mut file = before.to_string();
    let mut marks = Bookmarks::load(&file, PATH.to_string());
    toggle(&mut marks, &mut file, "https://c.example/", "C\tsee");
    assert_eq!(file, format!("{before}\nhttps://c.example/\tC see\n"));

    toggle(&mut marks, &mut file, "https://b.example/", "");
    assert_eq!(
        file,
        "# mine\r\nhttps://a.example/\tA\r\n\njunk here\nhttps://c.example/\tC see\n"
    );
}

#[test]
fn a_url_is_matched_exactly_so_a_trailing_slash_is_another_page() {
    let mut marks = Bookmarks::in_memory();
    marks.toggle("https://example.com/", "", None);
    assert!(!marks.has("https://example.com"));
    assert_eq!(
        marks.toggle("https://example.com", "", None).0, Toggled::Added,
        "another page"
    );
    assert_eq!(marks.all().len(), 2);
}

#[test]
fn a_change_reads_the_file_again_first_so_two_runs_do_not_lose_each_others_bookmarks() {
    let mut file = "https://y.example/\tY\n".to_string();
    let mut a = Bookmarks::load(&file, PATH.to_string());
    let mut b = Bookmarks::load(&file, PATH.to_string());
    toggle(&mut a, &mut file, "https://x.example/", "X");
    // B never saw X, and removes Y.
    assert!(!b.has("https://x.example/"));
    assert_eq!(
        toggle(&mut b, &mut file, "https://y.example/", ""),
        Toggled::Removed
    );
    assert_eq!(file, "https://x.example/\tX\n");
    assert_eq!(urls(&b), ["https://x.example/"]);
}

#[test]
fn an_in_memory_bookmarks_writes_nothing_and_says_so() {
    let mut marks = Bookmarks::in_memory();
    assert_eq!(marks.path(), None, "the caller says so on the row");
    assert_eq!(marks.toggle("https://a.example/", "A", None).0, Toggled::Added);
    assert_eq!(urls(&marks), ["https://a.example/"]);
    assert_eq!(
        marks.toggle("https://a.example/", "A", None).0, Toggled::Removed
    );
}

#[test]
fn a_completion_is_the_rest_of_the_newest_bookmark_that_starts_the_same_way() {
    let mut marks = Bookmarks::in_memory();
    marks.toggle("https://www.Example.org/docs", "", None);
    marks.toggle("https://example.com/", "", None);
    assert_eq!(marks.complete("exa"), Some("mple.com/".to_string()));
    assert_eq!(marks.complete("Example.o"), Some("rg/docs".to_string()));
    assert_eq!(
        marks.complete("https://www.exam"),
        Some("ple.com/".to_string())
    );
    assert_eq!(marks.complete("example.com/"), None);
    assert_eq!(marks.complete(""), None);
    assert_eq!(marks.complete("ex a"), None);

    let mut marks = Bookmarks::in_memory();
    marks.toggle("http://plain.example/", "", None);
    assert_eq!(marks.complete("pla"), None);
    assert_eq!(
        marks.complete("http://pla"),
        Some("in.example/".to_string())
    );
}

#[test]
fn matches_rank_prefix_then_substring_then_title_newest_first() {
    let mut marks = Bookmarks::in_memory();
    for (url, title) in [
        ("https://docs.example/", "Home"),
        ("https://example.com/rust", "Guide"),
        ("https://example.org/", "The Rust book"),
        ("https://rust.example/", ""),
        ("https://rust-lang.example/", ""),
    ] {
        marks.toggle(url, title, None);
    }
    let found: Vec<&str> = marks
        .matches("rust")
        .into_iter()
        .map(|m| m.url.as_str())
        .collect();
    assert_eq!(
        found,
        [
            "https://rust-lang.example/",
            "https://rust.example/",
            "https://example.com/rust",
            "https://example.org/",
        ]
    );
    assert_eq!(marks.matches("")[0].url, "https://rust-lang.example/");
}
