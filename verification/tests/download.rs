use blinkterm::cdp::Event;
use blinkterm::download::{
    became_download, bytes, cancel_params, enable, ensure_dir, fit, is_guid, keep, not_enabled,
    numbered, prepare, progress_words, reserve, resolve, safe_name, split_extension, tilde, usable,
    user_dir, user_dirs_file, Attempt, Choice, Done, Downloads, Found, Moved, State, Work, DIR_ENV,
    NAME_BYTES, NAME_CELLS, NOTICE_FOR,
};
use blinkterm::json::Json;
use blinkterm::screen::{clip_to, width};
use blinkterm::text::is_plain;

/// The guids of the tests' downloads.
const GUID: &str = "2b3f5c1e-9d4a-4e8b-a6f0-1c2d3e4f5a6b";
const GUID_2: &str = "7e6d5c4b-3a29-4180-9f8e-7d6c5b4a3928";
const GUID_3: &str = "0a1b2c3d-4e5f-4a0b-8c1d-2e3f4a5b6c7d";

fn json(text: &str) -> Json {
    Json::parse(text).expect("json")
}

fn began(guid: &str, name: &str) -> Event {
    Event {
        method: "Browser.downloadWillBegin".to_string(),
        params: json(&format!(
            r#"{{"frameId":"F00D","guid":"{guid}","url":"http://127.0.0.1/{name}","suggestedFilename":"{name}"}}"#
        )),
    }
}

fn progress(guid: &str, received: u64, total: u64, state: &str) -> Event {
    Event {
        method: "Browser.downloadProgress".to_string(),
        params: json(&format!(
            r#"{{"guid":"{guid}","totalBytes":{total},"receivedBytes":{received},"state":"{state}"}}"#
        )),
    }
}

#[test]
fn the_directory_is_the_variable_then_the_file_then_downloads_under_home() {
    let file = "XDG_DOWNLOAD_DIR=\"$HOME/Fetched\"\n";
    assert_eq!(
        resolve(Some("/a"), Some(file), Some("/home/u")),
        Ok("/a".to_string())
    );
    assert_eq!(
        resolve(Some("relative"), Some(file), Some("/home/u")),
        Ok("/home/u/Fetched".to_string()),
        "a relative variable is ignored"
    );
    assert_eq!(
        resolve(Some(""), None, Some("/home/u")),
        Ok("/home/u/Downloads".to_string()),
        "an empty variable is none"
    );
    assert_eq!(
        resolve(None, Some("# nothing\n"), Some("/home/u")),
        Ok("/home/u/Downloads".to_string())
    );
    let why = resolve(None, Some(file), None).expect_err("no home");
    assert!(why.contains("--download-dir"), "{why}");
}

#[test]
fn a_user_dirs_line_is_read_with_its_home_expanded_and_its_quotes_dropped() {
    let home = "/home/u";
    let read = |contents: &str| user_dir(contents, DIR_ENV, home);
    assert_eq!(
        read("XDG_DOWNLOAD_DIR=\"$HOME/Downloads\""),
        Some("/home/u/Downloads".to_string())
    );
    assert_eq!(
        read("XDG_DOWNLOAD_DIR=\"/srv/dl\""),
        Some("/srv/dl".to_string())
    );
    assert_eq!(read("XDG_DOWNLOAD_DIR=\"$HOME/\""), None, "disabled");
    assert_eq!(read("XDG_DOWNLOAD_DIR=\"$HOME\""), None, "disabled");
    assert_eq!(read("# XDG_DOWNLOAD_DIR=\"/srv/dl\""), None);
    assert_eq!(read("XDG_DOWNLOAD_DIR=\"dl\""), None, "relative");
    assert_eq!(read("XDG_DOWNLOAD_DIR=/srv/dl"), None, "unquoted");
    assert_eq!(read("XDG_DESKTOP_DIR=\"$HOME/Desktop\""), None);
    assert_eq!(read("XDG_DOWNLOAD_DIRX=\"/srv/dl\""), None);
    assert_eq!(read("XDG_DOWNLOAD_DIR=\"$HOMEWORK/dl\""), None);
    assert_eq!(
        read(
            "# written by xdg-user-dirs-update\n\
             XDG_DESKTOP_DIR=\"$HOME/Desktop\"\n\
             XDG_DOWNLOAD_DIR=\"$HOME/Downloads\"\n\
             XDG_DOWNLOAD_DIR=\"/srv/dl\"\n"
        ),
        Some("/srv/dl".to_string()),
        "the last line wins"
    );
    assert_eq!(
        user_dirs_file(Some("/c"), Some("/home/u")),
        Some("/c/user-dirs.dirs".to_string())
    );
    assert_eq!(
        user_dirs_file(Some("c"), Some("/home/u")),
        Some("/home/u/.config/user-dirs.dirs".to_string())
    );
    assert_eq!(user_dirs_file(None, None), None);
}

#[test]
fn a_navigation_that_became_a_download_is_told_apart_from_one_that_failed() {
    assert!(became_download(&json(
        r#"{"frameId":"F","loaderId":"L","errorText":"net::ERR_ABORTED","isDownload":true}"#
    )));
    assert!(
        !became_download(&json(
            r#"{"errorText":"net::ERR_INVALID_RESPONSE","isDownload":true}"#
        )),
        "an attachment served with a 404 is a page that did not come"
    );
    assert!(
        !became_download(&json(
            r#"{"errorText":"net::ERR_ABORTED","isDownload":false}"#
        )),
        "a navigation overtaken by another"
    );
    assert!(!became_download(&json("{}")));
}

#[test]
fn a_pages_name_becomes_one_safe_path_component() {
    for (sent, wanted) in [
        ("report.pdf", "report.pdf"),
        // The last component, which is more than the engine keeps and as
        // safe: one component either way.
        ("../../evil.txt", "evil.txt"),
        ("_.._evil.txt", "_.._evil.txt"),
        ("a/b.txt", "b.txt"),
        ("a\\b.txt", "b.txt"),
        ("dir/", "dir"),
        ("..", "download"),
        (".", "download"),
        ("", "download"),
        ("/", "download"),
        (".hidden", "hidden"),
        ("...hidden", "hidden"),
        ("ctl\u{1}\u{1b}[31m.txt", "ctl__[31m.txt"),
        ("evil\u{202e}fdp.exe", "evil_fdp.exe"),
        ("a\tb.txt", "a_b.txt"),
        ("nul\0.txt", "nul_.txt"),
        (" trailing. ", "trailing"),
        ("zero\u{200b}width.txt", "zerowidth.txt"),
        ("line\u{2028}break.txt", "linebreak.txt"),
        ("日本語 報告.pdf", "日本語 報告.pdf"),
        ("CON", "CON"),
    ] {
        let name = safe_name(sent);
        assert_eq!(name, wanted, "{sent:?}");
        assert!(name.chars().all(is_plain), "{sent:?} → {name:?}");
    }
}

#[test]
fn a_name_is_cut_to_what_a_filesystem_takes_and_keeps_its_extension() {
    let long = format!("{}.tar.gz", "y".repeat(400));
    let name = safe_name(&long);
    assert_eq!(name.len(), NAME_BYTES);
    assert!(
        name.ends_with("yyy.gz"),
        "the double extension's first half is stem: {name}"
    );

    let wide = format!("{}.txt", "日".repeat(100));
    let name = safe_name(&wide);
    assert!(name.len() <= NAME_BYTES, "{}", name.len());
    assert!(name.ends_with("日.txt"), "{name}");

    let dotted = format!("a.{}", "x".repeat(300));
    let name = safe_name(&dotted);
    assert_eq!(
        name.len(),
        NAME_BYTES,
        "not an extension, so cut like a string"
    );
    assert!(name.starts_with("a.x"), "{name}");

    assert_eq!(split_extension("report.pdf"), ("report", ".pdf"));
    assert_eq!(split_extension("archive.tar.gz"), ("archive.tar", ".gz"));
    assert_eq!(split_extension("report"), ("report", ""));
    assert_eq!(split_extension(".bashrc"), (".bashrc", ""));
    assert_eq!(split_extension("done. really"), ("done. really", ""));
    assert_eq!(fit("short.txt", NAME_BYTES), "short.txt");
}

#[test]
fn an_alternative_name_is_numbered_before_its_extension() {
    assert_eq!(numbered("report.pdf", 1), "report (1).pdf");
    assert_eq!(numbered("report", 2), "report (2)");
    assert_eq!(numbered("archive.tar.gz", 1), "archive.tar (1).gz");
    let full = safe_name(&format!("{}.pdf", "z".repeat(400)));
    let alternative = numbered(&full, 12);
    assert!(alternative.len() <= NAME_BYTES, "{}", alternative.len());
    assert!(alternative.ends_with("z (12).pdf"), "{alternative}");
}

#[test]
fn a_guid_is_thirty_six_hex_and_dashes_and_nothing_else() {
    assert!(is_guid(GUID));
    assert!(!is_guid("../x"));
    assert!(!is_guid(&GUID[1..]));
    assert!(!is_guid(&GUID.to_uppercase()));
    assert!(!is_guid("../../../../../../../../../etc/passw"));
}

#[test]
fn progress_is_a_percentage_when_the_total_is_known_and_a_size_when_it_is_not() {
    assert_eq!(
        progress_words("report.pdf", 42, 100),
        "downloading report.pdf 42%"
    );
    assert_eq!(progress_words("x", 100_000, 0), "downloading x 100 kB");
    assert_eq!(progress_words("x", 150, 100), "downloading x 100%");
    assert_eq!(progress_words("x", 999, 1000), "downloading x 99%");
    let long = "n".repeat(200);
    let words = progress_words(&long, 0, 10);
    assert_eq!(
        words,
        format!("downloading {} 0%", clip_to(&long, NAME_CELLS))
    );
    assert_eq!(width(&words), "downloading ".len() + NAME_CELLS + 3);
}

#[test]
fn sizes_read_the_way_the_readme_writes_them() {
    assert_eq!(bytes(22), "22 B");
    assert_eq!(bytes(185_000), "185 kB");
    assert_eq!(bytes(1_100_000), "1.1 MB");
    assert_eq!(bytes(2_097_152), "2.1 MB");
    assert_eq!(bytes(999_999), "1.0 MB", "never 1000 kB");
    assert_eq!(bytes(12_400_000), "12 MB");
}

#[test]
fn a_path_under_home_is_said_with_a_tilde() {
    let home = Some("/home/u");
    assert_eq!(
        tilde("/home/u/Downloads/r.pdf", home),
        "~/Downloads/r.pdf"
    );
    assert_eq!(tilde("/home/u", home), "~");
    assert_eq!(tilde("/home/uv/x", home), "/home/uv/x");
    assert_eq!(tilde("/srv/x", home), "/srv/x");
    assert_eq!(tilde("/srv/x", Some("/")), "/srv/x");
    assert_eq!(tilde("/srv/x", None), "/srv/x");
}

/// A directory of files, by name, in memory.
struct Disk {
    dir: String,
    files: Vec<(String, String)>,
    makeable: bool,
}

impl Disk {
    fn new(dir: &str) -> Disk {
        Disk {
            dir: dir.to_string(),
            files: Vec::new(),
            makeable: true,
        }
    }

    fn write(&mut self, name: &str, contents: &str) {
        self.files.push((name.to_string(), contents.to_string()));
    }

    fn read(&self, name: &str) -> Option<&str> {
        self.files
            .iter()
            .find(|(n, _)| n == name)
            .map(|(_, contents)| contents.as_str())
    }

    /// Give the guid's file a name that is free, as the program does.
    fn keep(&mut self, guid: &str, name: &str) -> Result<String, String> {
        let Some(at) = self.files.iter().position(|(n, _)| n == guid) else {
            return keep(guid, Moved::NotThere("No such file".to_string()));
        };
        let mut taken = 0;
        let free = loop {
            match reserve(name, guid, taken) {
                Attempt::Reserve(name) => {
                    if self.read(&name).is_none() {
                        break name;
                    }
                    taken += 1;
                }
                Attempt::Settle(name) => break name,
            }
        };
        self.files[at].0 = free.clone();
        keep(guid, Moved::At(format!("{}/{free}", self.dir)))
    }

    /// Hand an event over with the work it asks for done.
    fn take(&mut self, downloads: &mut Downloads, event: &Event, now: u64) -> bool {
        let done = match downloads.work(event) {
            Work::Nothing => Done::Nothing,
            Work::MakeDir => {
                let found = if self.makeable {
                    Found::Made
                } else {
                    Found::Refused("Not a directory".to_string())
                };
                Done::Dir(ensure_dir(&self.dir, None, &found))
            }
            Work::Keep { guid, name } => Done::Kept(self.keep(&guid, &name)),
        };
        downloads.take(event, now, done)
    }
}

/// When the events of a test come.
const NOW: u64 = 5_000_000_000;

fn downloads_in(dir: &str) -> (Disk, Downloads) {
    (Disk::new(dir), Downloads::new(dir.to_string(), None))
}

#[test]
fn the_events_of_one_download_become_words_and_then_a_file() {
    let (mut disk, mut downloads) = downloads_in("/srv/dl");
    let now = NOW;
    assert!(disk.take(&mut downloads, &began(GUID, "report.pdf"), now));
    assert!(disk.take(&mut downloads, &progress(GUID, 0, 22, "inProgress"), now));
    assert_eq!(
        downloads.line(now).as_deref(),
        Some("downloading report.pdf 0%")
    );
    assert!(
        !disk.take(&mut downloads, &progress(GUID, 0, 22, "inProgress"), now),
        "the same words again are not a redraw"
    );
    assert!(disk.take(&mut downloads, &progress(GUID, 11, 22, "inProgress"), now));
    assert_eq!(
        downloads.line(now).as_deref(),
        Some("downloading report.pdf 50%")
    );

    disk.write(GUID, "%PDF-1.4 hello report\n");
    assert!(disk.take(&mut downloads, &progress(GUID, 22, 22, "completed"), now));
    assert_eq!(
        disk.read("report.pdf").expect("the file, named"),
        "%PDF-1.4 hello report\n"
    );
    assert!(disk.read(GUID).is_none(), "the guid's file was renamed");
    assert!(
        downloads.partials().is_empty(),
        "a saved file is nobody's partial"
    );
    let saved = "saved /srv/dl/report.pdf".to_string();
    assert_eq!(downloads.line(now), Some(saved.clone()));
    assert_eq!(downloads.expires(), Some(now + NOTICE_FOR));
    assert!(!downloads.expire(now + NOTICE_FOR / 2));
    assert_eq!(downloads.line(now + NOTICE_FOR / 2), Some(saved));
    assert!(downloads.expire(now + NOTICE_FOR));
    assert_eq!(downloads.line(now + NOTICE_FOR), None);
    assert!(downloads.all().is_empty(), "nothing left to say about it");
}

#[test]
fn a_second_download_with_the_same_name_is_numbered_and_two_ending_at_once_do_not_collide() {
    let (mut disk, mut downloads) = downloads_in("/srv/dl");
    let now = NOW;
    for guid in [GUID, GUID_2] {
        disk.take(&mut downloads, &began(guid, "report.pdf"), now);
        disk.write(guid, guid);
    }
    for guid in [GUID, GUID_2] {
        disk.take(&mut downloads, &progress(guid, 36, 36, "completed"), now);
    }
    disk.take(&mut downloads, &began(GUID_3, "report.pdf"), now);
    disk.write(GUID_3, GUID_3);
    disk.take(&mut downloads, &progress(GUID_3, 36, 36, "completed"), now);
    for (name, guid) in [
        ("report.pdf", GUID),
        ("report (1).pdf", GUID_2),
        ("report (2).pdf", GUID_3),
    ] {
        assert_eq!(disk.read(name).expect(name), guid, "{name}");
    }
    let mut left: Vec<&str> = disk.files.iter().map(|(name, _)| name.as_str()).collect();
    left.sort();
    assert_eq!(left, ["report (1).pdf", "report (2).pdf", "report.pdf"]);
}

#[test]
fn a_cancelled_download_is_a_failure_unless_this_program_cancelled_it() {
    let now = NOW;
    let (mut disk, mut downloads) = downloads_in("/srv/dl");
    disk.take(&mut downloads, &began(GUID, "report.pdf"), now);
    assert_eq!(
        downloads.partials(),
        [format!("/srv/dl/{GUID}.crdownload")]
    );
    assert!(disk.take(&mut downloads, &progress(GUID, 0, 0, "canceled"), now));
    assert_eq!(
        downloads.line(now).as_deref(),
        Some("couldn't save report.pdf")
    );
    assert_eq!(
        downloads.partials(),
        [format!("/srv/dl/{GUID}.crdownload")],
        "the engine removes it after it says so, and may be killed first"
    );

    let (mut disk, mut downloads) = downloads_in("/srv/dl");
    disk.take(&mut downloads, &began(GUID, "report.pdf"), now);
    downloads.quit();
    assert!(disk.take(&mut downloads, &progress(GUID, 0, 0, "canceled"), now));
    assert_eq!(downloads.line(now), None, "nobody's news");

    // A finished file the engine did not leave where it said: the reason
    // is said, and no placeholder is left under the name.
    let (mut disk, mut downloads) = downloads_in("/srv/dl");
    disk.take(&mut downloads, &began(GUID_2, "gone.bin"), now);
    disk.take(&mut downloads, &progress(GUID_2, 5, 5, "completed"), now);
    let line = downloads.line(now).expect("a sentence");
    assert!(line.starts_with("couldn't save gone.bin: "), "{line}");
    assert!(disk.read("gone.bin").is_none());
}

#[test]
fn a_download_in_flight_when_the_engine_dies_is_a_failure_that_says_so() {
    let now = NOW;
    let (mut disk, mut downloads) = downloads_in("/srv/dl");
    disk.take(&mut downloads, &began(GUID, "a"), now);
    disk.take(&mut downloads, &began(GUID_2, "b"), now);
    assert!(downloads.engine_died(now));
    let died = State::Failed(Some("the engine died".to_string()));
    assert!(downloads
        .all()
        .iter()
        .all(|download| download.state == died));
    assert_eq!(
        downloads.line(now).as_deref(),
        Some("couldn't save b: the engine died")
    );
    assert_eq!(
        downloads.partials(),
        [
            format!("/srv/dl/{GUID}.crdownload"),
            format!("/srv/dl/{GUID_2}.crdownload")
        ]
    );
    assert!(!downloads.engine_died(now), "nothing left in flight");

    // A relaunch is not a quit: the next download is news.
    disk.take(&mut downloads, &began(GUID_3, "c"), now);
    assert_eq!(downloads.all()[2].state, State::InProgress);
    assert_eq!(downloads.line(now).as_deref(), Some("downloading c 0 B"));
}

#[test]
fn a_directory_that_cannot_be_made_is_the_reason_given() {
    let (mut disk, mut downloads) = downloads_in("/srv/a-file/below");
    disk.makeable = false;
    let now = NOW;
    disk.take(&mut downloads, &began(GUID, "report.pdf"), now);
    disk.take(&mut downloads, &progress(GUID, 0, 0, "canceled"), now);
    let line = downloads.line(now).expect("a sentence");
    assert!(
        line.starts_with("couldn't save report.pdf: cannot make "),
        "{line}"
    );
}

#[test]
fn the_newest_download_is_the_one_named_and_the_rest_are_counted() {
    let (mut disk, mut downloads) = downloads_in("/srv/dl");
    let now = NOW;
    disk.take(&mut downloads, &began(GUID, "first.bin"), now);
    disk.take(&mut downloads, &began(GUID_2, "second.bin"), now);
    assert_eq!(
        downloads.line(now).as_deref(),
        Some("downloading second.bin 0 B, 1 more")
    );
    assert!(disk.take(&mut downloads, &progress(GUID_2, 0, 0, "canceled"), now));
    assert_eq!(
        downloads.line(now).as_deref(),
        Some("downloading first.bin 0 B"),
        "one in flight beats the notice"
    );
}

#[test]
fn progress_that_does_not_move_does_not_redraw() {
    let (mut disk, mut downloads) = downloads_in("/srv/dl");
    let now = NOW;
    disk.take(&mut downloads, &began(GUID, "big.bin"), now);
    let redraws: Vec<bool> = [1000, 1001, 1002, 1003, 1004]
        .into_iter()
        .map(|received| {
            disk.take(
                &mut downloads,
                &progress(GUID, received, 100_000, "inProgress"),
                now,
            )
        })
        .collect();
    assert_eq!(redraws, [true, false, false, false, false]);
}

#[test]
fn events_that_are_not_about_a_download_by_a_real_guid_change_nothing() {
    let (mut disk, mut downloads) = downloads_in("/srv/dl");
    let now = NOW;
    assert!(!disk.take(&mut downloads, &began("../../etc", "x"), now));
    assert!(!disk.take(&mut downloads, &progress(GUID, 1, 2, "inProgress"), now));
    let other = Event {
        method: "Target.targetInfoChanged".to_string(),
        params: json(&format!(r#"{{"guid":"{GUID}"}}"#)),
    };
    assert!(!disk.take(&mut downloads, &other, now));
    assert!(downloads.all().is_empty());
}

/// A size as floating-point division and rounding write it.
fn bytes_in_floats(n: u64) -> String {
    if n < 1000 {
        return format!("{n} B");
    }
    let mut value = n as f64;
    for unit in ["kB", "MB", "GB", "TB"] {
        value /= 1000.0;
        if value < 9.95 {
            return format!("{value:.1} {unit}");
        }
        if value < 999.5 {
            return format!("{value:.0} {unit}");
        }
    }
    value /= 1000.0;
    if value < 9.95 {
        return format!("{value:.1} PB");
    }
    format!("{value:.0} PB")
}

#[test]
fn sizes_are_the_ones_floating_point_gives() {
    let mut n: u64 = 1;
    while n < u64::MAX / 3 {
        for near in [n - 1, n, n + 1, n + n / 2, n + n / 3] {
            assert_eq!(bytes(near), bytes_in_floats(near), "{near}");
        }
        n = n * 2 + n / 7 + 1;
    }
    for edge in [
        949, 950, 999, 1_000, 1_049, 1_050, 9_949, 9_950, 9_951, 10_499, 10_500, 10_501, 999_499,
        999_500, 999_501, 9_949_999, 9_950_000, 999_499_999, 999_500_000, 999_499_999_999,
        999_500_000_000, 999_499_999_999_999, 999_500_000_000_000, u64::MAX,
    ] {
        assert_eq!(bytes(edge), bytes_in_floats(edge), "{edge}");
    }
}

#[test]
fn what_is_sent_names_what_it_is_about() {
    let (mut disk, mut downloads) = downloads_in("/srv/dl");
    disk.take(&mut downloads, &began(GUID, "a"), NOW);
    assert_eq!(downloads.in_flight().len(), 1);
    assert_eq!(downloads.cancel_all(), [GUID.to_string()]);
    assert_eq!(
        cancel_params(GUID).to_string(),
        format!(r#"{{"guid":"{GUID}"}}"#)
    );
    assert_eq!(downloads.dir(), "/srv/dl");
    assert_eq!(
        enable("/srv/dl").get("downloadPath").and_then(Json::as_str),
        Some("/srv/dl")
    );
    assert_eq!(
        not_enabled("no"),
        "cannot tell the engine where to save files: no"
    );
}

#[test]
fn a_directory_is_prepared_or_the_reason_is_given() {
    assert_eq!(
        prepare(
            &Choice::At("/srv/dl".to_string()),
            None,
            None,
            None,
            &Ok("/work".to_string())
        ),
        Ok("/srv/dl".to_string())
    );
    assert_eq!(
        prepare(
            &Choice::At("dl".to_string()),
            None,
            None,
            None,
            &Ok("/work".to_string())
        ),
        Ok("/work/dl".to_string())
    );
    assert!(prepare(
        &Choice::At("dl".to_string()),
        None,
        None,
        None,
        &Err("gone".to_string())
    )
    .is_err());
    assert!(prepare(&Choice::Default, None, None, None, &Ok("/".to_string())).is_err());
    assert_eq!(usable("/srv/dl", false), Ok("/srv/dl".to_string()));
    assert_eq!(
        usable("/srv/dl", true),
        Err("/srv/dl is not a directory, so nothing can be saved in it".to_string())
    );
    assert_eq!(ensure_dir("/srv/dl", None, &Found::Directory), Ok(()));
    assert_eq!(
        ensure_dir("/srv/dl", None, &Found::Other),
        Err("/srv/dl is not a directory".to_string())
    );
    assert_eq!(
        keep("strange", Moved::At("/srv/dl/x".to_string())),
        Err("the engine named it strangely".to_string())
    );
    assert_eq!(
        keep(GUID, Moved::NoName("full".to_string())),
        Err("cannot name it: full".to_string())
    );
}

#[test]
fn a_partial_stays_one_after_the_row_has_nothing_more_to_say_of_it() {
    let now = NOW;
    let partial = format!("/srv/dl/{GUID}.crdownload");
    let (mut disk, mut downloads) = downloads_in("/srv/dl");
    disk.take(&mut downloads, &began(GUID, "report.pdf"), now);
    disk.take(&mut downloads, &began(GUID_2, "kept.pdf"), now);
    disk.write(GUID_2, "kept");
    disk.take(&mut downloads, &progress(GUID_2, 4, 4, "completed"), now);
    disk.take(&mut downloads, &progress(GUID, 0, 0, "canceled"), now);
    assert!(downloads.expire(now + NOTICE_FOR));
    assert!(downloads.all().is_empty());
    assert_eq!(downloads.partials(), [partial.clone()]);
    // The same download again is one partial, and none once it is saved.
    disk.take(&mut downloads, &began(GUID, "report.pdf"), now);
    assert_eq!(downloads.partials(), [partial]);
    disk.write(GUID, "at last");
    disk.take(&mut downloads, &progress(GUID, 7, 7, "completed"), now);
    assert!(downloads.partials().is_empty());
}

#[test]
fn an_event_of_no_download_changes_nothing() {
    let now = NOW;
    let (mut disk, mut downloads) = downloads_in("/srv/dl");
    disk.take(&mut downloads, &began(GUID, "report.pdf"), now);
    let line = downloads.line(now);
    for event in [
        began("not-a-guid", "x"),
        began(GUID, "another.pdf"),
        progress(GUID_2, 1, 2, "inProgress"),
        Event {
            method: "Browser.somethingElse".to_string(),
            params: json(&format!(r#"{{"guid":"{GUID}","state":"canceled"}}"#)),
        },
    ] {
        assert_eq!(downloads.work(&event), Work::Nothing);
        assert!(!disk.take(&mut downloads, &event, now), "{event:?}");
        assert_eq!(downloads.line(now), line);
        assert_eq!(downloads.all().len(), 1);
        assert_eq!(downloads.partials().len(), 1);
    }
}

#[test]
fn a_name_made_safe_is_safe() {
    for suggested in ["../../evil.txt", " trailing. ", "...", "a\u{202e}b\u{7}.pdf", "x/y\\z .", ""] {
        let name = safe_name(suggested);
        assert!(!name.ends_with(['.', ' ']), "{suggested:?} is {name:?}");
        assert_eq!(safe_name(&name), name, "{suggested:?}");
    }
}

#[test]
fn a_size_has_one_decimal_below_ten_in_every_unit() {
    assert_eq!(bytes(1_500_000_000_000_000), "1.5 PB");
    assert_eq!(bytes(12_000_000_000_000_000), "12 PB");
    assert_eq!(bytes(u64::MAX), "18447 PB");
}

#[test]
fn an_absolute_directory_in_the_file_needs_no_home() {
    let file = "XDG_DOWNLOAD_DIR=\"/srv/dl\"\nXDG_DOWNLOAD_DIR=\"$HOME/dl\"\n";
    assert_eq!(resolve(None, Some(file), None), Ok("/srv/dl".to_string()));
    assert_eq!(
        resolve(None, Some(file), Some("relative")),
        Ok("/srv/dl".to_string())
    );
    assert_eq!(
        resolve(None, Some(file), Some("/home/u")),
        Ok("/home/u/dl".to_string())
    );
}
