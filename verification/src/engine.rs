//! The Chromium that does the rendering, as a child process: where it is looked
//! for, how it is started, what is kept of what it says, and what to kill.
//!
//! What is started is usually a wrapper script, so the engine leads a process
//! group of its own and every kill signals the group. It is driven over a pipe
//! and not a port, which every process on the machine could open.
use vstd::prelude::*;

use crate::json::{field, lemma_list_view, list_of, text_of, Json, Value};
use crate::paths::{join, joined};
use crate::strings::{char_lists, chars_of, decimal, decimal_string, pieces, position, split, string_of};

verus! {

/// The engines that are looked for, in the order they are looked for.
pub const CANDIDATES: [&'static str; 4] = [
    "chromium-shell",
    "chromium",
    "chromium-browser",
    "google-chrome",
];

/// The environment variable that overrides the search.
pub const ENGINE_ENV: &'static str = "BLINKTERM_ENGINE";

/// How many of the first lines of the engine's stderr are kept.
pub const HEAD: usize = 8;

/// How many of the last lines are kept.
pub const TAIL: usize = 12;

/// The texts of some strings.
pub open spec fn texts(v: Seq<String>) -> Seq<Seq<char>> {
    v.map_values(|s: String| s@)
}

// ---- where it is ----

/// A name in each of some directories.
pub open spec fn in_each(dirs: Seq<Seq<char>>, name: Seq<char>) -> Seq<Seq<char>> {
    dirs.map_values(|dir: Seq<char>| joined(dir, name))
}

/// Where a name is looked for: where it says, when it is a path, and else in
/// each directory of `PATH`.
pub open spec fn on_path(name: Seq<char>, path: Option<Seq<char>>) -> Seq<Seq<char>> {
    if name.contains('/') {
        seq![name]
    } else {
        match path {
            Some(dirs) => in_each(pieces(dirs, ':'), name),
            None => Seq::empty(),
        }
    }
}

/// Where the first `n` candidates are looked for.
pub open spec fn candidate_places(path: Option<Seq<char>>, n: int) -> Seq<Seq<char>>
    decreases n,
{
    if n <= 0 {
        Seq::empty()
    } else {
        candidate_places(path, n - 1) + on_path(CANDIDATES@[n - 1]@, path)
    }
}

/// Where the engine may be, in the order it is looked for.
pub open spec fn engine_places(named: Option<Seq<char>>, path: Option<Seq<char>>) -> Seq<Seq<char>> {
    match named {
        Some(name) => seq![name] + on_path(name, path),
        None => candidate_places(path, 4),
    }
}

/// The text of an optional string slice.
pub open spec fn given(s: Option<&str>) -> Option<Seq<char>> {
    match s {
        Some(s) => Some(s@),
        None => None,
    }
}

/// Where a name is looked for.
fn path_places(name: &str, path: Option<&str>) -> (r: Vec<String>)
    ensures
        texts(r@) == on_path(name@, given(path)),
{
    let mut out: Vec<String> = Vec::new();
    let chars = chars_of(name);
    let at = position(chars.as_slice(), '/');
    proof {
        crate::strings::lemma_index_of(name@, '/');
    }
    if at < chars.len() {
        out.push(name.to_owned());
        proof {
            assert(texts(out@) =~= seq![name@]);
        }
        return out;
    }
    let dirs = match path {
        Some(path) => split(chars_of(path).as_slice(), ':'),
        None => {
            proof {
                assert(texts(out@) =~= Seq::<Seq<char>>::empty());
            }
            return out;
        },
    };
    let ghost all = char_lists(dirs@);
    let mut i: usize = 0;
    while i < dirs.len()
        invariant
            i <= dirs@.len(),
            all == char_lists(dirs@),
            out@.len() == i,
            forall|k: int| 0 <= k < i ==> #[trigger] out@[k]@ == joined(all[k], name@),
        decreases dirs@.len() - i,
    {
        out.push(join(string_of(dirs[i].as_slice()).as_str(), name));
        i += 1;
    }
    proof {
        assert(texts(out@) =~= in_each(all, name@));
    }
    out
}

/// Where the engine may be, in the order it is looked for: `named` is what the
/// variable says and `path` is `PATH`. The first that is an executable file is
/// the one.
pub fn places(named: Option<&str>, path: Option<&str>) -> (r: Vec<String>)
    ensures
        texts(r@) == engine_places(given(named), given(path)),
{
    let mut out: Vec<String> = Vec::new();
    match named {
        Some(name) => {
            out.push(name.to_owned());
            let ghost first = texts(out@);
            let mut more = path_places(name, path);
            let ghost rest = texts(more@);
            out.append(&mut more);
            proof {
                assert(first =~= seq![name@]);
                assert(texts(out@) =~= first + rest);
            }
        },
        None => {
            let mut i: usize = 0;
            proof {
                assert(texts(out@) =~= Seq::<Seq<char>>::empty());
            }
            while i < CANDIDATES.len()
                invariant
                    i <= CANDIDATES@.len(),
                    texts(out@) == candidate_places(given(path), i as int),
                decreases CANDIDATES@.len() - i,
            {
                let ghost before = texts(out@);
                let mut more = path_places(CANDIDATES[i], path);
                let ghost rest = texts(more@);
                out.append(&mut more);
                proof {
                    assert(texts(out@) =~= before + rest);
                }
                i += 1;
            }
        },
    }
    out
}

/// The first `n` candidates, with commas between.
pub open spec fn looked_for(n: int) -> Seq<char>
    decreases n,
{
    if n <= 0 {
        Seq::empty()
    } else if n == 1 {
        CANDIDATES@[0]@
    } else {
        looked_for(n - 1) + ", "@ + CANDIDATES@[n - 1]@
    }
}

/// Where the engine is, or a sentence about why there is none: `found` is the
/// first of [`places`] that is an executable file.
pub fn locate(named: Option<&str>, found: Option<String>) -> (r: Result<String, String>)
    ensures
        match found {
            Some(path) => r == Ok::<String, String>(path),
            None => match named {
                Some(name) => r matches Err(why) && why@ == ENGINE_ENV@ + " names "@ + name@
                    + ", which is not an executable"@,
                None => r matches Err(why) && why@ == "no browser engine on PATH: looked for "@
                    + looked_for(4) + "; set "@ + ENGINE_ENV@ + " to one"@,
            },
        },
{
    match found {
        Some(path) => Ok(path),
        None => match named {
            Some(name) => {
                let mut why = ENGINE_ENV.to_owned();
                why.append(" names ");
                why.append(name);
                why.append(", which is not an executable");
                Err(why)
            },
            None => {
                let mut list = String::new();
                let mut i: usize = 0;
                while i < CANDIDATES.len()
                    invariant
                        i <= CANDIDATES@.len(),
                        list@ == looked_for(i as int),
                    decreases CANDIDATES@.len() - i,
                {
                    if i > 0 {
                        list.append(", ");
                    }
                    list.append(CANDIDATES[i]);
                    proof {
                        assert(list@ =~= looked_for(i + 1));
                    }
                    i += 1;
                }
                let mut why = "no browser engine on PATH: looked for ".to_owned();
                why.append(list.as_str());
                why.append("; set ");
                why.append(ENGINE_ENV);
                why.append(" to one");
                Err(why)
            },
        },
    }
}

// ---- how it is started ----

/// The command line, which is fixed apart from the sandbox: Chromium will not
/// start as root without `--no-sandbox`, and as anyone else it would turn off a
/// protection that works. The url goes last.
pub fn flags(as_root: bool) -> (r: Vec<&'static str>)
    ensures
        r@ == flag_words(as_root),
        r@ == (if as_root {
            seq![
                "--headless",
                "--disable-gpu",
                "--disable-dev-shm-usage",
                "--ozone-platform=headless",
                "--remote-debugging-pipe",
                "--no-sandbox",
                "about:blank",
            ]
        } else {
            seq![
                "--headless",
                "--disable-gpu",
                "--disable-dev-shm-usage",
                "--ozone-platform=headless",
                "--remote-debugging-pipe",
                "about:blank",
            ]
        }),
{
    let mut flags: Vec<&'static str> = vec![
        "--headless",
        "--disable-gpu",
        "--disable-dev-shm-usage",
        "--ozone-platform=headless",
        "--remote-debugging-pipe",
    ];
    if as_root {
        flags.push("--no-sandbox");
    }
    flags.push("about:blank");
    flags
}

/// The flag that names the profile.
pub fn profile_flag(dir: &str) -> (r: String)
    ensures
        r@ == "--user-data-dir="@ + dir@,
{
    "--user-data-dir=".to_owned().concat(dir)
}

/// `kill(2)`'s argument for everything `pid` leads: `-pid` once `pid` is a
/// group of its own, and `pid` alone if it somehow is not. `group` is the
/// group that `pid` is in, and `ours` this program's.
pub fn group_target(pid: i32, group: i32, ours: i32) -> (r: i32)
    requires
        pid > 0,
    ensures
        r == aimed(pid, group, ours),
        r == (if group == pid && group != ours {
            -pid
        } else {
            pid as int
        }),
{
    if group == pid && group != ours {
        -pid
    } else {
        pid
    }
}

/// Whether a target may be signalled: 0 is this program's own group and -1 is
/// every process there is, so a target that was never recorded is neither.
pub fn may_signal(target: i32) -> (r: bool)
    ensures
        r == is_safe_aim(target as int),
        r == (target != 0 && target != -1),
{
    target != 0 && target != -1
}

/// Whether anything is left of the engine's group: `asked` is what a signal
/// that only asks was answered, and no group of its own is no group.
pub fn group_alive(target: i32, reached: bool, no_such_group: bool) -> (r: bool)
    ensures
        r == (target < 0 && (reached || !no_such_group)),
{
    target < 0 && (reached || !no_such_group)
}

/// The engine's process group, when it has one of its own.
pub fn group(target: i32) -> (r: Option<i32>)
    requires
        target > i32::MIN,
    ensures
        r == (if target < 0 {
            Some((-target) as i32)
        } else {
            None
        }),
{
    if target < 0 {
        Some(-target)
    } else {
        None
    }
}

// ---- what it said ----

/// What is kept of some lines: the first [`HEAD`] and the last [`TAIL`].
///
/// Both ends, because Chromium says why it is dying at the top and then prints
/// a register dump.
pub open spec fn kept(lines: Seq<Seq<char>>) -> Seq<Seq<char>> {
    if lines.len() <= HEAD + TAIL {
        lines
    } else {
        lines.take(HEAD as int) + lines.skip(lines.len() - TAIL)
    }
}

/// Keep one more line.
pub fn keep_line(tail: &mut Vec<String>, line: String)
    ensures
        texts(final(tail)@) == one_more(texts(old(tail)@), line@),
        texts(final(tail)@) == (if old(tail)@.len() < HEAD + TAIL {
            texts(old(tail)@).push(line@)
        } else {
            texts(old(tail)@).push(line@).remove(HEAD as int)
        }),
{
    let ghost before = texts(tail@);
    let full = tail.len() >= HEAD + TAIL;
    tail.push(line);
    proof {
        assert(texts(tail@) =~= before.push(line@));
    }
    if full {
        let ghost longer = tail@;
        let gone = tail.remove(HEAD);
        proof {
            assert(texts(tail@) =~= texts(longer).remove(HEAD as int));
        }
    }
}

/// Keeping lines one at a time keeps the first and the last of them all.
pub proof fn law_the_first_and_the_last_lines_stay(lines: Seq<Seq<char>>, line: Seq<char>)
    ensures
        kept(lines.push(line)) == (if kept(lines).len() < HEAD + TAIL {
            kept(lines).push(line)
        } else {
            kept(lines).push(line).remove(HEAD as int)
        }),
        kept(lines).len() <= HEAD + TAIL,
{
    assert(kept(lines.push(line)) =~= (if kept(lines).len() < HEAD + TAIL {
        kept(lines).push(line)
    } else {
        kept(lines).push(line).remove(HEAD as int)
    }));
}

/// Lines with a slash between.
pub open spec fn slashed(lines: Seq<Seq<char>>) -> Seq<char>
    decreases lines.len(),
{
    if lines.len() == 0 {
        Seq::empty()
    } else if lines.len() == 1 {
        lines[0]
    } else {
        slashed(lines.drop_last()) + " / "@ + lines.last()
    }
}

/// What the engine said, for the end of a sentence.
pub open spec fn last_words(lines: Seq<Seq<char>>) -> Seq<char> {
    if lines.len() == 0 {
        Seq::empty()
    } else {
        "; it said: "@ + slashed(lines)
    }
}

/// What the engine said, for the end of a sentence.
pub fn describe_tail(lines: &Vec<String>) -> (r: String)
    ensures
        r@ == last_words(texts(lines@)),
{
    if lines.len() == 0 {
        return String::new();
    }
    let ghost all = texts(lines@);
    let mut said = String::new();
    let mut i: usize = 0;
    proof {
        assert(all.take(0) =~= Seq::<Seq<char>>::empty());
    }
    while i < lines.len()
        invariant
            i <= lines@.len(),
            all == texts(lines@),
            said@ == slashed(all.take(i as int)),
        decreases lines@.len() - i,
    {
        if i > 0 {
            said.append(" / ");
        }
        said.append(lines[i].as_str());
        proof {
            let now = all.take(i + 1);
            assert(now.drop_last() =~= all.take(i as int));
            assert(now.last() == lines@[i as int]@);
            assert(said@ =~= slashed(now));
        }
        i += 1;
    }
    proof {
        assert(all.take(i as int) =~= all);
    }
    "; it said: ".to_owned().concat(said.as_str())
}

/// The sentence for an engine that did not answer.
pub fn did_not_answer(path: &str, seconds: u64, err: &str, lines: &Vec<String>) -> (r: String)
    ensures
        r@ == path@ + " did not answer on its debugging pipe within "@ + decimal(seconds as nat)
            + " seconds ("@ + err@ + ")"@ + last_words(texts(lines@)),
{
    let mut out = path.to_owned();
    out.append(" did not answer on its debugging pipe within ");
    out.append(decimal_string(seconds).as_str());
    out.append(" seconds (");
    out.append(err);
    out.append(")");
    out.append(describe_tail(lines).as_str());
    out
}

/// What is known of the engine's process.
#[derive(Debug, PartialEq, Eq)]
pub enum Status {
    Running,
    /// It ended, as the system puts it.
    Exited(String),
    /// The system would not say, for this reason.
    Unknown(String),
}

/// `Ok` while the engine is running; the reason, with its own last words, once
/// it is not.
pub fn check(status: &Status, lines: &Vec<String>) -> (r: Result<(), String>)
    ensures
        match *status {
            Status::Running => r is Ok,
            Status::Exited(how) => r matches Err(why) && why@ == "the browser engine exited ("@
                + how@ + ")"@ + last_words(texts(lines@)),
            Status::Unknown(e) => r matches Err(why) && why@
                == "cannot tell whether the engine is running: "@ + e@,
        },
{
    match status {
        Status::Running => Ok(()),
        Status::Exited(how) => {
            let mut why = "the browser engine exited (".to_owned();
            why.append(how.as_str());
            why.append(")");
            why.append(describe_tail(lines).as_str());
            Err(why)
        },
        Status::Unknown(e) => Err(
            "cannot tell whether the engine is running: ".to_owned().concat(e.as_str()),
        ),
    }
}

// ---- its first page ----

/// Where the first page stands among some targets: their number when there is
/// none.
pub open spec fn page_place(targets: Seq<Value>) -> int
    decreases targets.len(),
{
    if targets.len() == 0 || text_of(field(targets[0], "type"@)) == Some("page"@) {
        0
    } else {
        1 + page_place(targets.drop_first())
    }
}

/// The id of the first page among some targets.
pub open spec fn page_id(targets: Seq<Value>) -> Option<Seq<char>> {
    let i = page_place(targets);
    if i < targets.len() {
        text_of(field(targets[i], "targetId"@))
    } else {
        None
    }
}

/// The first page target's id in a `Target.getTargets` answer.
pub fn first_page(reply: &Json) -> (r: Result<String, String>)
    ensures
        match list_of(field(reply@, "targetInfos"@)) {
            Some(targets) => match page_id(targets) {
                Some(id) => r matches Ok(s) && s@ == id,
                None => r matches Err(why) && why@ == "no page among "@ + decimal(targets.len())
                    + " targets"@,
            },
            None => r matches Err(why) && why@ == "the target list is not a list"@,
        },
{
    let targets = match reply.get("targetInfos") {
        Some(v) => match v.as_array() {
            Some(targets) => targets,
            None => return Err("the target list is not a list".to_owned()),
        },
        None => return Err("the target list is not a list".to_owned()),
    };
    proof {
        lemma_list_view(*targets);
    }
    let ghost all: Seq<Value> = Json::Array(*targets)@->List_0;
    let mut i: usize = 0;
    proof {
        assert(all.skip(0) =~= all);
    }
    while i < targets.len()
        invariant
            i <= targets@.len(),
            all.len() == targets@.len(),
            forall|k: int| 0 <= k < all.len() ==> #[trigger] all[k] == targets@[k]@,
            page_place(all) == i + page_place(all.skip(i as int)),
            list_of(field(reply@, "targetInfos"@)) == Some(all),
        decreases targets@.len() - i,
    {
        proof {
            assert(all.skip(i as int)[0] == targets@[i as int]@);
            assert(all.skip(i as int).drop_first() =~= all.skip(i + 1));
        }
        if targets[i].says("type", "page") {
            return match targets[i].text_at("targetId") {
                Some(id) => Ok(id.to_owned()),
                None => Err(no_page_among(targets.len())),
            };
        }
        i += 1;
    }
    Err(no_page_among(targets.len()))
}

/// The sentence for a list with no page in it.
fn no_page_among(n: usize) -> (r: String)
    ensures
        r@ == "no page among "@ + decimal(n as nat) + " targets"@,
{
    let mut why = "no page among ".to_owned();
    why.append(decimal_string(n as u64).as_str());
    why.append(" targets");
    why
}

/// The sentence for an engine that made no page in its time; `last` is why the
/// last look found none.
pub fn no_page(last: &str) -> (r: String)
    ensures
        r@ == "the engine has no page to drive"@ + (if last@.len() == 0 {
            Seq::empty()
        } else {
            ": "@ + last@
        }),
{
    let mut out = "the engine has no page to drive".to_owned();
    if !last.is_empty() {
        out.append(": ".to_owned().concat(last).as_str());
    }
    proof {
        assert("the engine has no page to drive"@ + Seq::<char>::empty()
            =~= "the engine has no page to drive"@);
    }
    out
}

// ---- laws of how it is started and stopped ----

/// The command line.
pub open spec fn flag_words(as_root: bool) -> Seq<&'static str> {
    seq![
        "--headless",
        "--disable-gpu",
        "--disable-dev-shm-usage",
        "--ozone-platform=headless",
        "--remote-debugging-pipe",
    ] + (if as_root {
        seq!["--no-sandbox"]
    } else {
        Seq::empty()
    }) + seq!["about:blank"]
}

/// What is signalled for a process: its group, as a negative number, or itself.
pub open spec fn aimed(pid: i32, group: i32, ours: i32) -> int {
    if group == pid && group != ours {
        -pid
    } else {
        pid as int
    }
}

/// Whether a signal there would reach the engine and nobody else.
pub open spec fn is_safe_aim(target: int) -> bool {
    target != 0 && target != -1
}

/// The sandbox is off for root and for nobody else, the engine is spoken to over
/// its pipe, and the page that it opens comes last.
pub proof fn law_the_sandbox_is_off_for_root_alone(as_root: bool)
    ensures
        flag_words(as_root).last() == "about:blank",
        flag_words(as_root).contains("--remote-debugging-pipe"),
        flag_words(as_root).contains("--headless"),
        flag_words(true).len() == flag_words(false).len() + 1,
        flag_words(true).remove(5) == flag_words(false),
        flag_words(true)[5] == "--no-sandbox",
        forall|i: int|
            0 <= i < flag_words(false).len() ==> (#[trigger] flag_words(false)[i])@
                != "--no-sandbox"@,
{
    reveal_strlit("--headless");
    reveal_strlit("--disable-gpu");
    reveal_strlit("--disable-dev-shm-usage");
    reveal_strlit("--ozone-platform=headless");
    reveal_strlit("--remote-debugging-pipe");
    reveal_strlit("--no-sandbox");
    reveal_strlit("about:blank");
    assert("--headless"@.len() == 10);
    assert("--disable-gpu"@.len() == 13);
    assert("--disable-dev-shm-usage"@.len() == 23);
    assert("--ozone-platform=headless"@.len() == 25);
    assert("--remote-debugging-pipe"@.len() == 23);
    assert("--no-sandbox"@.len() == 12);
    assert("about:blank"@.len() == 11);
    assert("--disable-dev-shm-usage"@[2] != "--remote-debugging-pipe"@[2]);
    assert(flag_words(as_root)[4] == "--remote-debugging-pipe");
    assert(flag_words(as_root)[0] == "--headless");
    assert(flag_words(true).remove(5) =~= flag_words(false));
    let some = flag_words(false);
    assert(some[0] == "--headless" && some[1] == "--disable-gpu" && some[2]
        == "--disable-dev-shm-usage" && some[3] == "--ozone-platform=headless" && some[4]
        == "--remote-debugging-pipe" && some[5] == "about:blank");
}

/// A signal goes to the engine: to it alone, or to the group that it leads, never
/// to this program's own group, and never to everybody.
pub proof fn law_a_signal_reaches_the_engine_alone(pid: i32, group: i32, ours: i32)
    requires
        pid > 1,
    ensures
        aimed(pid, group, ours) == pid || aimed(pid, group, ours) == -pid,
        aimed(pid, group, ours) < 0 <==> group == pid && ours != pid,
        is_safe_aim(aimed(pid, group, ours)),
        !is_safe_aim(0) && !is_safe_aim(-1),
{
}

/// An engine that is named is looked for where it is named and then on the path;
/// one that is not is looked for under each of its names, in every directory of
/// the path, in order.
pub proof fn law_the_engine_is_looked_for_in_order(
    name: Seq<char>,
    dirs: Seq<char>,
    k: int,
)
    requires
        !name.contains('/'),
        0 <= k < pieces(dirs, ':').len(),
    ensures
        engine_places(Some(name), Some(dirs)).len() == pieces(dirs, ':').len() + 1,
        engine_places(Some(name), Some(dirs))[0] == name,
        engine_places(Some(name), Some(dirs))[k + 1] == joined(pieces(dirs, ':')[k], name),
        ({
            let n = pieces(dirs, ':').len() as int;
            let places = engine_places(None, Some(dirs));
            let dir = pieces(dirs, ':')[k];
            &&& places.len() == 4 * n
            &&& places[k] == joined(dir, "chromium-shell"@)
            &&& places[n + k] == joined(dir, "chromium"@)
            &&& places[2 * n + k] == joined(dir, "chromium-browser"@)
            &&& places[3 * n + k] == joined(dir, "google-chrome"@)
        }),
        engine_places(None, None).len() == 0,
{
    let parts = pieces(dirs, ':');
    let path = Some(dirs);
    lemma_no_slash_in("chromium-shell");
    lemma_no_slash_in("chromium");
    lemma_no_slash_in("chromium-browser");
    lemma_no_slash_in("google-chrome");
    assert(CANDIDATES@[0] == "chromium-shell" && CANDIDATES@[1] == "chromium" && CANDIDATES@[2]
        == "chromium-browser" && CANDIDATES@[3] == "google-chrome");
    reveal_with_fuel(candidate_places, 5);
    let one = on_path("chromium-shell"@, path);
    let two = on_path("chromium"@, path);
    let three = on_path("chromium-browser"@, path);
    let four = on_path("google-chrome"@, path);
    assert(candidate_places(path, 4) =~= one + two + three + four);
    assert(engine_places(None, None) =~= Seq::<Seq<char>>::empty());
}

proof fn lemma_no_slash_in(word: &'static str)
    requires
        word == "chromium-shell" || word == "chromium" || word == "chromium-browser" || word
            == "google-chrome",
    ensures
        !word@.contains('/'),
{
    reveal_strlit("chromium-shell");
    reveal_strlit("chromium");
    reveal_strlit("chromium-browser");
    reveal_strlit("google-chrome");
}

/// The page that is driven is the first that is one.
pub proof fn law_the_first_page_is_driven(others: Seq<Value>, page: Value, rest: Seq<Value>)
    requires
        forall|i: int|
            0 <= i < others.len() ==> text_of(field(#[trigger] others[i], "type"@)) != Some("page"@),
        text_of(field(page, "type"@)) == Some("page"@),
    ensures
        page_id(others + seq![page] + rest) == text_of(field(page, "targetId"@)),
        page_id(others) is None,
{
    lemma_first_page(others, page, rest);
    let all = others + seq![page] + rest;
    assert(all[others.len() as int] == page);
    lemma_no_page(others);
}

proof fn lemma_first_page(others: Seq<Value>, page: Value, rest: Seq<Value>)
    requires
        forall|i: int|
            0 <= i < others.len() ==> text_of(field(#[trigger] others[i], "type"@)) != Some("page"@),
        text_of(field(page, "type"@)) == Some("page"@),
    ensures
        page_place(others + seq![page] + rest) == others.len(),
    decreases others.len(),
{
    let all = others + seq![page] + rest;
    if others.len() == 0 {
        assert(all[0] == page);
    } else {
        assert(all[0] == others[0]);
        assert(all.drop_first() =~= others.drop_first() + seq![page] + rest);
        assert forall|i: int| 0 <= i < others.drop_first().len() implies text_of(
            field(#[trigger] others.drop_first()[i], "type"@),
        ) != Some("page"@) by {
            assert(others.drop_first()[i] == others[i + 1]);
        }
        lemma_first_page(others.drop_first(), page, rest);
    }
}

proof fn lemma_no_page(targets: Seq<Value>)
    requires
        forall|i: int|
            0 <= i < targets.len() ==> text_of(field(#[trigger] targets[i], "type"@)) != Some(
                "page"@,
            ),
    ensures
        page_place(targets) == targets.len(),
    decreases targets.len(),
{
    if targets.len() > 0 {
        assert forall|i: int| 0 <= i < targets.drop_first().len() implies text_of(
            field(#[trigger] targets.drop_first()[i], "type"@),
        ) != Some("page"@) by {
            assert(targets.drop_first()[i] == targets[i + 1]);
        }
        lemma_no_page(targets.drop_first());
        assert(text_of(field(targets[0], "type"@)) != Some("page"@));
    }
}

/// What the engine said last is told in order, after the words that say so.
pub proof fn law_what_the_engine_said_is_told(lines: Seq<Seq<char>>, line: Seq<char>)
    ensures
        last_words(seq![line]) == "; it said: "@ + line,
        lines.len() > 0 ==> last_words(lines.push(line)) == last_words(lines) + " / "@ + line,
        last_words(Seq::empty()).len() == 0,
        kept(lines).len() <= 20,
        lines.len() <= 20 ==> kept(lines) == lines,
        lines.len() > 20 ==> kept(lines) == lines.take(8) + lines.skip(lines.len() - 12),
{
    assert(lines.push(line).drop_last() =~= lines);
    if lines.len() > 0 {
        assert(last_words(lines.push(line)) =~= last_words(lines) + " / "@ + line);
    }
}

/// What is kept of what the engine said, with one line more.
pub open spec fn one_more(lines: Seq<Seq<char>>, line: Seq<char>) -> Seq<Seq<char>> {
    if lines.len() < HEAD + TAIL {
        lines.push(line)
    } else {
        lines.push(line).remove(HEAD as int)
    }
}

/// Keeping line after line keeps the first eight and the last twelve of them.
pub proof fn law_keeping_lines_keeps_the_first_and_the_last(lines: Seq<Seq<char>>, line: Seq<char>)
    ensures
        one_more(kept(lines), line) == kept(lines.push(line)),
        kept(Seq::empty()).len() == 0,
        lines.len() >= 8 ==> kept(lines).take(8) == lines.take(8),
        lines.len() >= 20 ==> kept(lines).skip(kept(lines).len() - 12) == lines.skip(
            lines.len() - 12,
        ),
{
    law_the_first_and_the_last_lines_stay(lines, line);
    if lines.len() >= 8 {
        assert(kept(lines).take(8) =~= lines.take(8));
    }
    if lines.len() >= 20 {
        assert(kept(lines).skip(kept(lines).len() - 12) =~= lines.skip(lines.len() - 12));
    }
}

}
