//! Saving what a page hands over.
//!
//! The engine writes a file under a name of its own, a guid, and this program
//! does the naming once the file is whole. Collisions are then its to avoid:
//! `report (1).pdf`, `report (2).pdf`, each reserved before it is taken.
//!
//! The name is the page's, so it is made into one safe path component first,
//! plain enough to be words on the row; the guid is checked before it is joined
//! to anything, so neither end of the rename is spelled by the page.
//!
//! A download is not a tab's: it survives that tab closing. It is words of its
//! own beside the tab's line, taken off eight seconds after the download ends.
//!
//! Times are nanoseconds on one clock that does not go back. Nothing here
//! touches the file system: [`Downloads::work`] says what has to be done there
//! for an event, and [`Downloads::take`] is handed what came of it.
use vstd::prelude::*;
use vstd::slice::slice_subrange;

use crate::cdp::{Event, News};
use crate::json::{
    bool_of, field, lemma_each_is_found, lemma_none_is_found, lookup, named_once, record_of, text_of,
    Json, Value,
};
use crate::paths::{
    absolute, file_name, file_name_of, is_absolute, is_same_place, join, joined, same_place,
    tilded, with_tilde,
};
use crate::screen::{clip_to, clipped};
use crate::size::{size_words, sized};
use crate::strings::{
    byte_len, char_byte_len, char_lists, chars_of, decimal, decimal_string, is_control,
    is_control_char, is_digit, is_space, is_space_char, last_index_of, last_position,
    lemma_byte_len_bounds, lemma_byte_len_concat, lemma_decimal, lemma_strip, lemma_strip_nothing,
    pieces, same, split, split_str, starts, starts_with_word, str_byte_len, string_of, strip,
    strip_chars, strip_end, strip_start, trim, trim_chars, Edge,
};
use crate::text::{
    all_plain, is_bidi, is_bidi_char, is_plain, lemma_joined_is_plain, plain, sanitize, sanitized,
};

verus! {

/// The variable honoured before the file, when it is set and absolute.
pub const DIR_ENV: &'static str = "XDG_DOWNLOAD_DIR";

/// The file that names a person's directories, under `$XDG_CONFIG_HOME` or
/// `~/.config`.
pub const USER_DIRS: &'static str = "user-dirs.dirs";

/// What the engine calls a file it is still writing.
pub const PARTIAL_SUFFIX: &'static str = ".crdownload";

/// The longest a filename can be, in bytes.
pub const NAME_BYTES: usize = 255;

/// How long "saved …" or "couldn't save …" stays on the row, in nanoseconds.
pub const NOTICE_FOR: u64 = 8_000_000_000;

/// The most cells a name takes on the row before it is clipped.
pub const NAME_CELLS: usize = 40;

/// The longest "extension" that is taken for one. Past this, a dot in a name
/// is punctuation.
pub const EXTENSION_BYTES: usize = 16;

/// How many names are tried before the guid is kept as the name.
pub const COLLISIONS: u32 = 1000;

// ---- where ----

/// Which directory the person asked for.
#[derive(Debug, PartialEq, Eq)]
pub enum Choice {
    /// `$XDG_DOWNLOAD_DIR`, `user-dirs.dirs`, or `~/Downloads`.
    Default,
    /// `--download-dir <dir>`.
    At(String),
}

/// The text of an optional string slice.
pub open spec fn given(s: Option<&str>) -> Option<Seq<char>> {
    match s {
        Some(s) => Some(s@),
        None => None,
    }
}

/// The value in quotes that a line gives a key.
pub open spec fn quoted_value(line: Seq<char>, key: Seq<char>) -> Option<Seq<char>> {
    let s = trim(line);
    let from = key.len() + 2;
    if starts(s, key + "=\""@) && s.len() > from && s.last() == '"' {
        Some(s.subrange(from as int, s.len() - 1))
    } else {
        None
    }
}

/// `s` without the slashes it starts with.
pub open spec fn unrooted(s: Seq<char>) -> Seq<char>
    decreases s.len(),
{
    if s.len() > 0 && s[0] == '/' {
        unrooted(s.drop_first())
    } else {
        s
    }
}

/// The directory that a value is: one under `$HOME`, when there is one, or an
/// absolute one.
pub open spec fn value_path(value: Seq<char>, home: Option<Seq<char>>) -> Option<Seq<char>> {
    if starts(value, "$HOME"@) {
        let rest = value.skip("$HOME"@.len() as int);
        if rest.len() > 0 && rest[0] != '/' {
            None
        } else {
            match home {
                Some(home) => Some(joined(home, unrooted(rest))),
                None => None,
            }
        }
    } else if is_absolute(value) {
        Some(value)
    } else {
        None
    }
}

/// The directory that a line gives a key.
pub open spec fn line_path(
    line: Seq<char>,
    key: Seq<char>,
    home: Option<Seq<char>>,
) -> Option<Seq<char>> {
    match quoted_value(line, key) {
        Some(value) => value_path(value, home),
        None => None,
    }
}

/// The directory that the last of some lines that gives a key one gives it.
pub open spec fn last_path(
    lines: Seq<Seq<char>>,
    key: Seq<char>,
    home: Option<Seq<char>>,
) -> Option<Seq<char>>
    decreases lines.len(),
{
    if lines.len() == 0 {
        None
    } else if line_path(lines.last(), key, home) is Some {
        line_path(lines.last(), key, home)
    } else {
        last_path(lines.drop_last(), key, home)
    }
}

/// What `user-dirs.dirs` gives a key: nothing when that is the home itself.
pub open spec fn user_dir_of(
    contents: Seq<char>,
    key: Seq<char>,
    home: Option<Seq<char>>,
) -> Option<Seq<char>> {
    match last_path(pieces(contents, '\n'), key, home) {
        Some(path) => if home is Some && same_place(path, home->0) {
            None
        } else {
            Some(path)
        },
        None => None,
    }
}

/// Where downloads go.
pub open spec fn resolved(
    env: Option<Seq<char>>,
    user_dirs: Option<Seq<char>>,
    home: Option<Seq<char>>,
) -> Option<Seq<char>> {
    let known = if home is Some && is_absolute(home->0) {
        home
    } else {
        None
    };
    let said = match user_dirs {
        Some(contents) => user_dir_of(contents, DIR_ENV@, known),
        None => None,
    };
    if env is Some && is_absolute(env->0) {
        env
    } else if said is Some {
        said
    } else {
        match known {
            Some(home) => Some(joined(home, "Downloads"@)),
            None => None,
        }
    }
}

/// Where downloads go, given the environment as values and the contents of
/// `user-dirs.dirs` if it could be read.
///
/// In order: the variable when absolute; the file's directory when it names an
/// absolute one other than `$HOME`; `$HOME/Downloads`. With no `$HOME` and
/// nothing else there is no answer that is not a guess, so it is an error that
/// names the option round it.
pub fn resolve(env: Option<&str>, user_dirs: Option<&str>, home: Option<&str>) -> (r: Result<
    String,
    String,
>)
    ensures
        match r {
            Ok(dir) => resolved(given(env), given(user_dirs), given(home)) == Some(dir@),
            Err(why) => resolved(given(env), given(user_dirs), given(home)) is None && why@ == "no $"@
                + DIR_ENV@
                + " and no $HOME, so nowhere to save a file; use --download-dir <dir>"@,
        },
{
    match env {
        Some(dir) => if absolute(dir) {
            return Ok(dir.to_owned());
        },
        None => {},
    }
    let known = match home {
        Some(home) => if absolute(home) {
            Some(home)
        } else {
            None
        },
        None => None,
    };
    match user_dirs {
        Some(contents) => match dir_said(contents, DIR_ENV, known) {
            Some(dir) => return Ok(dir),
            None => {},
        },
        None => {},
    }
    match known {
        Some(home) => return Ok(join(home, "Downloads")),
        None => {},
    }
    let mut why = "no $".to_owned();
    why.append(DIR_ENV);
    why.append(" and no $HOME, so nowhere to save a file; use --download-dir <dir>");
    Err(why)
}

/// The directory that a line gives a key.
fn path_in_line(line: &[char], key: &str, home: Option<&str>) -> (r: Option<String>)
    ensures
        match r {
            Some(path) => line_path(line@, key@, given(home)) == Some(path@),
            None => line_path(line@, key@, given(home)) is None,
        },
{
    let s = trim_chars(line);
    let mut head = key.to_owned();
    head.append("=\"");
    proof {
        reveal_strlit("=\"");
    }
    let from = chars_of(head.as_str()).len();
    if !starts_with_word(s, head.as_str()) || s.len() <= from || s[s.len() - 1] != '"' {
        return None;
    }
    let value = slice_subrange(s, from, s.len() - 1);
    if starts_with_word(value, "$HOME") {
        let skip = chars_of("$HOME").len();
        let mut i: usize = skip;
        let ghost rest = value@.skip(skip as int);
        if i < value.len() && value[i] != '/' {
            proof {
                assert(rest[0] == value@[skip as int]);
            }
            return None;
        }
        proof {
            if rest.len() > 0 {
                assert(rest[0] == value@[skip as int]);
            }
        }
        while i < value.len() && value[i] == '/'
            invariant
                skip <= i <= value@.len(),
                unrooted(rest) == unrooted(value@.skip(i as int)),
            decreases value@.len() - i,
        {
            proof {
                assert(value@.skip(i as int)[0] == value@[i as int]);
                assert(value@.skip(i as int).drop_first() =~= value@.skip(i + 1));
            }
            i += 1;
        }
        proof {
            if i < value@.len() {
                assert(value@.skip(i as int)[0] == value@[i as int]);
            }
            assert(value@.subrange(i as int, value@.len() as int) =~= value@.skip(i as int));
        }
        let below = string_of(slice_subrange(value, i, value.len()));
        return match home {
            Some(home) => Some(join(home, below.as_str())),
            None => None,
        };
    }
    if value.len() > 0 && value[0] == '/' {
        return Some(string_of(value));
    }
    None
}

/// One line of `user-dirs.dirs`, resolved against `home`.
///
/// `KEY="$HOME/x"` and `KEY="/abs"` are the two forms the file has; a relative
/// or unquoted value is ignored as if the line were not there, the last line
/// that does match wins, and a value equal to `home` is "disabled" and comes
/// back `None`.
pub fn user_dir(contents: &str, key: &str, home: &str) -> (r: Option<String>)
    ensures
        match r {
            Some(path) => user_dir_of(contents@, key@, Some(home@)) == Some(path@),
            None => user_dir_of(contents@, key@, Some(home@)) is None,
        },
{
    dir_said(contents, key, Some(home))
}

/// The same with a home that may be unknown: a line under it is then one that
/// names nothing.
fn dir_said(contents: &str, key: &str, home: Option<&str>) -> (r: Option<String>)
    ensures
        match r {
            Some(path) => user_dir_of(contents@, key@, given(home)) == Some(path@),
            None => user_dir_of(contents@, key@, given(home)) is None,
        },
{
    let all = chars_of(contents);
    let lines = split(all.as_slice(), '\n');
    let ghost texts = char_lists(lines@);
    let mut i: usize = lines.len();
    proof {
        assert(texts.take(i as int) =~= texts);
    }
    while i > 0
        invariant
            i <= lines@.len(),
            texts == char_lists(lines@),
            texts == pieces(contents@, '\n'),
            last_path(texts, key@, given(home)) == last_path(
                texts.take(i as int),
                key@,
                given(home),
            ),
        decreases i,
    {
        proof {
            assert(texts.take(i as int).last() == lines@[i - 1]@);
            assert(texts.take(i as int).drop_last() =~= texts.take(i - 1));
        }
        match path_in_line(lines[i - 1].as_slice(), key, home) {
            Some(path) => {
                match home {
                    Some(home) => if is_same_place(path.as_str(), home) {
                        return None;
                    },
                    None => {},
                }
                return Some(path);
            },
            None => {},
        }
        i -= 1;
    }
    None
}

/// Where `user-dirs.dirs` is, from `$XDG_CONFIG_HOME` (absolute) or
/// `$HOME/.config`.
pub fn user_dirs_file(config_home: Option<&str>, home: Option<&str>) -> (r: Option<String>)
    ensures
        match r {
            Some(path) => if config_home is Some && is_absolute(config_home->0@) {
                path@ == joined(config_home->0@, USER_DIRS@)
            } else {
                home is Some && is_absolute(home->0@) && path@ == joined(
                    joined(home->0@, ".config"@),
                    USER_DIRS@,
                )
            },
            None => !(config_home is Some && is_absolute(config_home->0@)) && !(home is Some
                && is_absolute(home->0@)),
        },
{
    match config_home {
        Some(config) => if absolute(config) {
            return Some(join(config, USER_DIRS));
        },
        None => {},
    }
    match home {
        Some(home) => if absolute(home) {
            return Some(join(join(home, ".config").as_str(), USER_DIRS));
        },
        None => {},
    }
    None
}

/// Resolve the choice to an absolute path: a relative one is below `cwd`,
/// which is where this program is or why that cannot be told.
pub fn prepare(
    choice: &Choice,
    env: Option<&str>,
    user_dirs: Option<&str>,
    home: Option<&str>,
    cwd: &Result<String, String>,
) -> (r: Result<String, String>)
    ensures
        match *choice {
            Choice::Default => match r {
                Ok(dir) => resolved(given(env), given(user_dirs), given(home)) == Some(dir@),
                Err(why) => resolved(given(env), given(user_dirs), given(home)) is None && why@
                    == "no $"@ + DIR_ENV@
                    + " and no $HOME, so nowhere to save a file; use --download-dir <dir>"@,
            },
            Choice::At(dir) => if is_absolute(dir@) {
                r matches Ok(path) && path@ == dir@
            } else {
                match *cwd {
                    Ok(here) => r matches Ok(path) && path@ == joined(here@, dir@),
                    Err(e) => r matches Err(why) && why@ == "cannot tell where "@ + dir@ + " is: "@
                        + e@,
                }
            },
        },
{
    match choice {
        Choice::Default => resolve(env, user_dirs, home),
        Choice::At(dir) => if absolute(dir.as_str()) {
            Ok(dir.clone())
        } else {
            match cwd {
                Ok(here) => Ok(join(here.as_str(), dir.as_str())),
                Err(e) => {
                    let mut why = "cannot tell where ".to_owned();
                    why.append(dir.as_str());
                    why.append(" is: ");
                    why.append(e.as_str());
                    Err(why)
                },
            }
        },
    }
}

/// Refuse a directory that exists and is not one: every download into it would
/// be cancelled with no reason given.
pub fn usable(dir: &str, something_else: bool) -> (r: Result<String, String>)
    ensures
        if something_else {
            r matches Err(why) && why@ == dir@
                + " is not a directory, so nothing can be saved in it"@
        } else {
            r matches Ok(path) && path@ == dir@
        },
{
    if something_else {
        let mut why = dir.to_owned();
        why.append(" is not a directory, so nothing can be saved in it");
        Err(why)
    } else {
        Ok(dir.to_owned())
    }
}

/// What was found at the directory, and what came of making it.
#[derive(Debug, PartialEq, Eq)]
pub enum Found {
    /// A directory.
    Directory,
    /// Something else.
    Other,
    /// Nothing, and it was made.
    Made,
    /// Nothing, and it could not be made, for this reason.
    Refused(String),
}

/// `~/Downloads/report.pdf` for a path under `home`, the path otherwise.
pub fn tilde(path: &str, home: Option<&str>) -> (r: String)
    ensures
        r@ == tilded(path@, given(home)),
{
    with_tilde(path, home)
}

/// Whether the directory is there to be saved in, or why it is not.
pub fn ensure_dir(dir: &str, home: Option<&str>, found: &Found) -> (r: Result<(), String>)
    ensures
        match *found {
            Found::Directory => r is Ok,
            Found::Made => r is Ok,
            Found::Other => r matches Err(why) && why@ == tilded(dir@, given(home))
                + " is not a directory"@,
            Found::Refused(e) => r matches Err(why) && why@ == "cannot make "@ + tilded(
                dir@,
                given(home),
            ) + ": "@ + e@,
        },
{
    match found {
        Found::Directory | Found::Made => Ok(()),
        Found::Other => {
            let mut why = tilde(dir, home);
            why.append(" is not a directory");
            Err(why)
        },
        Found::Refused(e) => {
            let mut why = "cannot make ".to_owned();
            why.append(tilde(dir, home).as_str());
            why.append(": ");
            why.append(e.as_str());
            Err(why)
        },
    }
}

/// Whether a `Page.navigate` reply says the url turned out to be a file to
/// save rather than a page to show: `isDownload` and `net::ERR_ABORTED`, since
/// `isDownload` alone is also what an attachment served with an error says.
pub fn became_download(reply: &Json) -> (r: bool)
    ensures
        r == (bool_of(field(reply@, "isDownload"@)) == Some(true) && text_of(
            field(reply@, "errorText"@),
        ) == Some("net::ERR_ABORTED"@)),
{
    let download = match reply.get("isDownload") {
        Some(v) => match v.as_bool() {
            Some(b) => b,
            None => false,
        },
        None => false,
    };
    download && reply.says("errorText", "net::ERR_ABORTED")
}

// ---- what it is called ----

/// A separator of path components, here or elsewhere.
pub open spec fn is_separator(c: char) -> bool {
    c == '/' || c == '\\'
}

/// What stands after the last separator.
pub open spec fn tail_part(s: Seq<char>) -> Seq<char>
    decreases s.len(),
{
    if s.len() == 0 || is_separator(s.last()) {
        Seq::empty()
    } else {
        tail_part(s.drop_last()).push(s.last())
    }
}

/// The last component that is not empty.
pub open spec fn last_part(s: Seq<char>) -> Seq<char>
    decreases s.len(),
{
    if s.len() > 0 && is_separator(s.last()) {
        last_part(s.drop_last())
    } else {
        tail_part(s)
    }
}

/// A name with every control and every bidi control as `_`, and without what
/// else is not plain.
pub open spec fn cleaned(s: Seq<char>) -> Seq<char>
    decreases s.len(),
{
    if s.len() == 0 {
        Seq::empty()
    } else {
        let before = cleaned(s.drop_last());
        if is_control(s.last()) || is_bidi(s.last()) {
            before.push('_')
        } else if plain(s.last()) {
            before.push(s.last())
        } else {
            before
        }
    }
}

/// The longest front of a text of no more than `room` bytes.
pub open spec fn cut_to(s: Seq<char>, room: int) -> Seq<char>
    decreases s.len(),
{
    if s.len() == 0 {
        s
    } else if byte_len(s) <= room {
        s
    } else {
        cut_to(s.drop_last(), room)
    }
}

/// Where the extension of a name starts: its length when it has none.
pub open spec fn extension_at(name: Seq<char>) -> int {
    let dot = last_index_of(name, '.');
    let extension = name.skip(dot);
    if dot > 0 && 1 < byte_len(extension) <= EXTENSION_BYTES && forall|i: int|
        0 <= i < extension.len() ==> !is_space(#[trigger] extension[i]) {
        dot
    } else {
        name.len() as int
    }
}

/// The name without its extension.
pub open spec fn stem(name: Seq<char>) -> Seq<char> {
    name.take(extension_at(name))
}

/// The extension, with its dot; empty when there is none.
pub open spec fn extension(name: Seq<char>) -> Seq<char> {
    name.skip(extension_at(name))
}

/// A name cut to `room` bytes, from the stem.
pub open spec fn fitted(name: Seq<char>, room: int) -> Seq<char> {
    if byte_len(name) <= room {
        name
    } else if byte_len(extension(name)) >= room {
        cut_to(name, room)
    } else {
        cut_to(stem(name), room - byte_len(extension(name))) + extension(name)
    }
}

/// A page's name for a file, made safe.
pub open spec fn safe(suggested: Seq<char>) -> Seq<char> {
    let name = strip(cleaned(last_part(suggested)), Edge::Dots);
    if name.len() == 0 {
        "download"@
    } else {
        fitted(name, NAME_BYTES as int)
    }
}

/// What tells an alternative name from the others.
pub open spec fn suffix(n: u32) -> Seq<char> {
    " ("@ + decimal(n as nat) + ")"@
}

/// The nth alternative name.
pub open spec fn alternative(name: Seq<char>, n: u32) -> Seq<char> {
    let room = NAME_BYTES - byte_len(suffix(n)) - byte_len(extension(name));
    cut_to(
        stem(name),
        if room < 0 {
            0
        } else {
            room
        },
    ) + suffix(n) + extension(name)
}

/// Whether a character separates path components.
fn separates(c: char) -> (r: bool)
    ensures
        r == is_separator(c),
{
    c == '/' || c == '\\'
}

/// The last component that is not empty.
fn last_component(s: &[char]) -> (r: &[char])
    ensures
        r@ == last_part(s@),
{
    let mut to: usize = s.len();
    proof {
        assert(s@.take(to as int) =~= s@);
    }
    while to > 0 && separates(s[to - 1])
        invariant
            to <= s@.len(),
            last_part(s@) == last_part(s@.take(to as int)),
        decreases to,
    {
        proof {
            assert(s@.take(to as int).last() == s@[to - 1]);
            assert(s@.take(to as int).drop_last() =~= s@.take(to - 1));
        }
        to -= 1;
    }
    let ghost whole = s@.take(to as int);
    proof {
        if to > 0 {
            assert(whole.last() == s@[to - 1]);
        }
    }
    let mut from: usize = to;
    proof {
        assert(s@.subrange(to as int, to as int) =~= Seq::<char>::empty());
        assert(tail_part(s@.take(to as int)) + s@.subrange(to as int, to as int) =~= tail_part(
            whole,
        ));
    }
    while from > 0 && !separates(s[from - 1])
        invariant
            from <= to <= s@.len(),
            tail_part(s@.take(from as int)) + s@.subrange(from as int, to as int) == tail_part(
                whole,
            ),
        decreases from,
    {
        proof {
            let t = s@.take(from as int);
            assert(t.last() == s@[from - 1]);
            assert(t.drop_last() =~= s@.take(from - 1));
            assert(tail_part(s@.take(from - 1)) + s@.subrange(from - 1, to as int) =~= tail_part(t)
                + s@.subrange(from as int, to as int));
        }
        from -= 1;
    }
    proof {
        let t = s@.take(from as int);
        if from > 0 {
            assert(t.last() == s@[from - 1]);
        }
        assert(tail_part(t) =~= Seq::<char>::empty());
        assert(s@.subrange(from as int, to as int) =~= tail_part(whole));
    }
    slice_subrange(s, from, to)
}

/// A name with every control and every bidi control as `_`, and without what
/// else is not plain.
fn clean(s: &[char]) -> (r: Vec<char>)
    ensures
        r@ == cleaned(s@),
{
    let mut out: Vec<char> = Vec::new();
    let mut i: usize = 0;
    proof {
        assert(s@.take(0) =~= Seq::<char>::empty());
    }
    while i < s.len()
        invariant
            i <= s@.len(),
            out@ == cleaned(s@.take(i as int)),
        decreases s@.len() - i,
    {
        let c = s[i];
        proof {
            assert(s@.take(i + 1).drop_last() =~= s@.take(i as int));
            assert(s@.take(i + 1).last() == c);
        }
        if is_control_char(c) || is_bidi_char(c) {
            out.push('_');
        } else if is_plain(c) {
            out.push(c);
        }
        i += 1;
    }
    proof {
        assert(s@.take(i as int) =~= s@);
    }
    out
}

/// A page's name for a file, made safe to join to the directory and to show.
///
/// The last path component only. Then every control character and every bidi
/// control becomes `_`, and anything else that is not plain is dropped, so that
/// the name is the same string on disk and on the row. White space and dots are
/// trimmed from both ends: leading dots so that a page cannot hand the person a
/// hidden file. What is left empty is `download`. Then it is cut to
/// [`NAME_BYTES`].
pub fn safe_name(suggested: &str) -> (r: String)
    ensures
        r@ == safe(suggested@),
{
    let all = chars_of(suggested);
    let kept = clean(last_component(all.as_slice()));
    let name = strip_chars(kept.as_slice(), Edge::Dots);
    if name.len() == 0 {
        return "download".to_owned();
    }
    fit(string_of(name).as_str(), NAME_BYTES)
}

/// Where the extension of a name starts.
fn extension_place(name: &[char]) -> (r: usize)
    ensures
        r == extension_at(name@),
        r <= name@.len(),
{
    let dot = match last_position(name, '.') {
        Some(dot) => dot,
        None => return name.len(),
    };
    if dot == 0 {
        return name.len();
    }
    let tail = slice_subrange(name, dot, name.len());
    proof {
        assert(tail@ =~= name@.skip(dot as int));
    }
    let bytes = str_byte_len(string_of(tail).as_str());
    if bytes <= 1 || bytes > EXTENSION_BYTES {
        return name.len();
    }
    let mut i: usize = 0;
    while i < tail.len()
        invariant
            i <= tail@.len(),
            0 < dot < name@.len(),
            dot == last_index_of(name@, '.'),
            tail@ == name@.skip(dot as int),
            forall|k: int| 0 <= k < i ==> !is_space(#[trigger] tail@[k]),
        decreases tail@.len() - i,
    {
        if is_space_char(tail[i]) {
            return name.len();
        }
        i += 1;
    }
    dot
}

/// The name and its extension: `report.pdf` is `report` and `.pdf`,
/// `archive.tar.gz` is `archive.tar` and `.gz`, `report` has none.
///
/// A dot at the very start is not an extension's, nor is a lone dot at the
/// end, and an "extension" longer than [`EXTENSION_BYTES`] or with white space
/// in it is not one either: it is a sentence with a full stop in it.
pub fn split_extension(name: &str) -> (r: (&str, &str))
    ensures
        r.0@ == stem(name@),
        r.1@ == extension(name@),
{
    let chars = chars_of(name);
    let at = extension_place(chars.as_slice());
    split_str(name, at)
}

/// A shorter front is no longer in bytes.
proof fn lemma_cut(s: Seq<char>, room: int)
    requires
        room >= 0,
    ensures
        byte_len(cut_to(s, room)) <= room,
        cut_to(s, room).len() <= s.len(),
        cut_to(s, room) == s.take(cut_to(s, room).len() as int),
        cut_to(s, room).len() < s.len() ==> byte_len(
            s.take(cut_to(s, room).len() as int + 1),
        ) > room,
    decreases s.len(),
{
    if s.len() > 0 && byte_len(s) > room {
        let front = s.drop_last();
        lemma_cut(front, room);
        let n = cut_to(front, room).len() as int;
        assert(front.take(n) =~= s.take(n));
        if n < front.len() {
            assert(front.take(n + 1) =~= s.take(n + 1));
        } else {
            assert(s.take(n + 1) =~= s);
        }
    } else {
        assert(s.take(s.len() as int) =~= s);
    }
}

/// The longest front of a text of no more than `room` bytes.
fn cut(text: &str, room: usize) -> (r: &str)
    ensures
        r@ == cut_to(text@, room as int),
{
    let chars = chars_of(text);
    let mut used: usize = str_byte_len(text);
    let mut n: usize = chars.len();
    proof {
        assert(text@.take(n as int) =~= text@);
    }
    while n > 0 && used > room
        invariant
            n <= chars@.len(),
            chars@ == text@,
            used == byte_len(text@.take(n as int)),
            cut_to(text@, room as int) == cut_to(text@.take(n as int), room as int),
        decreases n,
    {
        proof {
            assert(text@.take(n as int).drop_last() =~= text@.take(n - 1));
            assert(text@.take(n as int).last() == text@[n - 1]);
        }
        used -= char_byte_len(chars[n - 1]);
        n -= 1;
    }
    split_str(text, n).0
}

/// `name` cut to `bytes` bytes on a char boundary, from the stem, with the
/// extension kept whole; a name whose extension alone would not leave room is
/// cut from the end like any other string.
pub fn fit(name: &str, bytes: usize) -> (r: String)
    ensures
        r@ == fitted(name@, bytes as int),
{
    if str_byte_len(name) <= bytes {
        return name.to_owned();
    }
    let (front, tail) = split_extension(name);
    let taken = str_byte_len(tail);
    if taken >= bytes {
        return cut(name, bytes).to_owned();
    }
    cut(front, bytes - taken).to_owned().concat(tail)
}

/// The nth alternative: `report (1).pdf`, with the stem shortened so that the
/// whole still fits [`NAME_BYTES`].
pub fn numbered(name: &str, n: u32) -> (r: String)
    ensures
        r@ == alternative(name@, n),
{
    let (front, tail) = split_extension(name);
    let mut mark = " (".to_owned();
    mark.append(decimal_string(n as u64).as_str());
    mark.append(")");
    let marked = str_byte_len(mark.as_str());
    let taken = str_byte_len(tail);
    let room: usize = if marked > NAME_BYTES || taken > NAME_BYTES - marked {
        0
    } else {
        NAME_BYTES - marked - taken
    };
    let mut out = cut(front, room).to_owned();
    out.append(mark.as_str());
    out.append(tail);
    out
}

/// What to try, after so many names were taken.
#[derive(Debug, PartialEq, Eq)]
pub enum Attempt {
    /// Reserve this name; it may be taken too.
    Reserve(String),
    /// Take this one: the finished file's own, and so always the engine's to
    /// have.
    Settle(String),
}

/// A free name for a file, after `taken` names were not: the name, then its
/// alternatives in turn, and after [`COLLISIONS`] tries the guid itself.
pub fn reserve(name: &str, guid: &str, taken: u32) -> (r: Attempt)
    ensures
        match tried(name@, taken) {
            Some(next) => r matches Attempt::Reserve(s) && s@ == next,
            None => r matches Attempt::Settle(s) && s@ == guid@,
        },
        if taken == 0 {
            r matches Attempt::Reserve(s) && s@ == name@
        } else if taken < COLLISIONS {
            r matches Attempt::Reserve(s) && s@ == alternative(name@, taken)
        } else {
            r matches Attempt::Settle(s) && s@ == guid@
        },
{
    if taken == 0 {
        Attempt::Reserve(name.to_owned())
    } else if taken < COLLISIONS {
        Attempt::Reserve(numbered(name, taken))
    } else {
        Attempt::Settle(guid.to_owned())
    }
}

/// A character of the engine's guids.
pub open spec fn is_guid_char(c: char) -> bool {
    is_digit(c) || 'a' <= c <= 'f' || c == '-'
}

/// Thirty-six characters of hex and dashes.
pub open spec fn guid_like(s: Seq<char>) -> bool {
    s.len() == 36 && forall|i: int| 0 <= i < s.len() ==> is_guid_char(#[trigger] s[i])
}

/// Thirty-six characters of `[0-9a-f-]`, which is what the engine's guids are
/// and what a path component may be made of blind.
pub fn is_guid(text: &str) -> (r: bool)
    ensures
        r == guid_like(text@),
{
    let chars = chars_of(text);
    if chars.len() != 36 {
        return false;
    }
    let mut i: usize = 0;
    while i < chars.len()
        invariant
            i <= chars@.len(),
            chars@ == text@,
            chars@.len() == 36,
            forall|k: int| 0 <= k < i ==> is_guid_char(#[trigger] chars@[k]),
        decreases chars@.len() - i,
    {
        let c = chars[i];
        if !(('0' <= c && c <= '9') || ('a' <= c && c <= 'f') || c == '-') {
            return false;
        }
        i += 1;
    }
    true
}

/// What came of moving a finished file to its name.
#[derive(Debug, PartialEq, Eq)]
pub enum Moved {
    /// The guid's file is not there, for this reason.
    NotThere(String),
    /// A name could not be reserved, or the file not renamed, for this reason.
    NoName(String),
    /// It is at this path.
    At(String),
}

/// Where a finished file is, or why it is not: a guid that is not one is not
/// joined to anything.
pub fn keep(guid: &str, moved: Moved) -> (r: Result<String, String>)
    ensures
        if !guid_like(guid@) {
            r matches Err(why) && why@ == "the engine named it strangely"@
        } else {
            match moved {
                Moved::NotThere(e) => r matches Err(why) && why@
                    == "the engine's file is not there: "@ + e@,
                Moved::NoName(e) => r matches Err(why) && why@ == "cannot name it: "@ + e@,
                Moved::At(path) => r == Ok::<String, String>(path),
            }
        },
{
    if !is_guid(guid) {
        return Err("the engine named it strangely".to_owned());
    }
    match moved {
        Moved::NotThere(e) => Err("the engine's file is not there: ".to_owned().concat(e.as_str())),
        Moved::NoName(e) => Err("cannot name it: ".to_owned().concat(e.as_str())),
        Moved::At(path) => Ok(path),
    }
}

// ---- what the row says ----

/// `1.1 MB`, `312 kB`, `22 B`: one decimal below ten and none above.
pub fn bytes(n: u64) -> (r: String)
    ensures
        r@ == size_words(n as nat),
{
    sized(n)
}

/// How much has arrived, in hundredths, rounded down and no more than all.
pub open spec fn percent(received: u64, total: u64) -> nat {
    let p = (received as nat) * 100 / (total as nat);
    if p > 100 {
        100
    } else {
        p
    }
}

/// The words for one download in flight.
pub open spec fn progress(name: Seq<char>, received: u64, total: u64) -> Seq<char> {
    "downloading "@ + clipped(name, NAME_CELLS as int) + " "@ + if total == 0 {
        size_words(received as nat)
    } else {
        decimal(percent(received, total)) + "%"@
    }
}

/// The words for one download in flight: `downloading NAME 42%`, or
/// `downloading NAME 1.1 MB` when the total is not known (0).
///
/// The percentage is floored, so that `100%` means it has all arrived, and
/// clamped, because a retry can report more received than the total for a
/// moment.
pub fn progress_words(name: &str, received: u64, total: u64) -> (r: String)
    ensures
        r@ == progress(name@, received, total),
{
    let mut out = "downloading ".to_owned();
    out.append(clip_to(name, NAME_CELLS).as_str());
    out.append(" ");
    if total == 0 {
        out.append(bytes(received).as_str());
        return out;
    }
    let p: u128 = received as u128 * 100 / total as u128;
    let shown: u64 = if p > 100 {
        100
    } else {
        p as u64
    };
    let mut hundredths = decimal_string(shown);
    hundredths.append("%");
    out.append(hundredths.as_str());
    out
}

// ---- the downloads of a run ----

/// Where a download has got to.
#[derive(Debug, PartialEq, Eq)]
pub enum State {
    InProgress,
    /// Renamed into place, at this path.
    Saved(String),
    /// Cancelled, which is every failure the engine reports, or a rename that
    /// could not be done; with a reason when there is one.
    Failed(Option<String>),
}

/// What a [`State`] is.
pub enum Fate {
    Coming,
    Saved(Seq<char>),
    Failed(Option<Seq<char>>),
}

/// The text of an optional string.
pub open spec fn text_in(s: Option<String>) -> Option<Seq<char>> {
    match s {
        Some(s) => Some(s@),
        None => None,
    }
}

impl View for State {
    type V = Fate;

    open spec fn view(&self) -> Fate {
        match *self {
            State::InProgress => Fate::Coming,
            State::Saved(path) => Fate::Saved(path@),
            State::Failed(why) => Fate::Failed(text_in(why)),
        }
    }
}

/// One download the engine has announced.
#[derive(Debug, PartialEq, Eq)]
pub struct Download {
    pub guid: String,
    /// [`safe_name`] of the page's suggestion, already safe to show and to join.
    pub name: String,
    pub received: u64,
    /// 0 until the engine knows.
    pub total: u64,
    pub state: State,
    /// When it began.
    pub began: u64,
}

/// What a [`Download`] is.
#[verifier::ext_equal]
pub struct Item {
    pub guid: Seq<char>,
    pub name: Seq<char>,
    pub received: u64,
    pub total: u64,
    pub state: Fate,
    pub began: u64,
}

impl View for Download {
    type V = Item;

    open spec fn view(&self) -> Item {
        Item {
            guid: self.guid@,
            name: self.name@,
            received: self.received,
            total: self.total,
            state: self.state@,
            began: self.began,
        }
    }
}

/// What some downloads are.
pub open spec fn items(list: Seq<Download>) -> Seq<Item> {
    list.map_values(|d: Download| d@)
}

/// What some downloads are.
pub open spec fn items_of(list: Seq<&Download>) -> Seq<Item> {
    list.map_values(|d: &Download| d@)
}

/// Every download of this run, and what the row should say about them.
#[derive(Debug)]
pub struct Downloads {
    pub dir: String,
    pub home: Option<String>,
    /// In the order they began. Finished ones stay until the notice after
    /// them goes, which is when nothing on the row can be about them any more.
    pub list: Vec<Download>,
    /// The guids of those this run saw begin and not save, in the order they
    /// began. They stay whatever goes from the list: their partial files may be
    /// on disk until the engine is gone.
    pub unsaved: Vec<String>,
    /// The sentence for the last one that ended, and when it goes.
    pub notice: Option<(String, u64)>,
    /// Whether this run cancelled them itself, on the way out, so that the
    /// `canceled` events that follow are not reported as failures.
    pub quitting: bool,
    /// Whether the directory was there or could be made, the first time a
    /// download began; the reason, if not.
    pub dir_ready: Option<Result<(), String>>,
}

/// What some [`Downloads`] are.
#[verifier::ext_equal]
pub struct Shelf {
    pub dir: Seq<char>,
    pub home: Option<Seq<char>>,
    pub list: Seq<Item>,
    pub unsaved: Seq<Seq<char>>,
    pub notice: Option<(Seq<char>, u64)>,
    pub quitting: bool,
    /// Nothing until it is known; then the reason it is not ready, if it is
    /// not.
    pub ready: Option<Option<Seq<char>>>,
}

/// The sentence and its end.
pub open spec fn notice_of(notice: Option<(String, u64)>) -> Option<(Seq<char>, u64)> {
    match notice {
        Some((words, until)) => Some((words@, until)),
        None => None,
    }
}

/// The reason in a result.
pub open spec fn reason(r: Result<(), String>) -> Option<Seq<char>> {
    match r {
        Ok(_) => None,
        Err(why) => Some(why@),
    }
}

impl View for Downloads {
    type V = Shelf;

    open spec fn view(&self) -> Shelf {
        Shelf {
            dir: self.dir@,
            home: text_in(self.home),
            list: items(self.list@),
            unsaved: strings_of(self.unsaved@),
            notice: notice_of(self.notice),
            quitting: self.quitting,
            ready: match self.dir_ready {
                Some(r) => Some(reason(r)),
                None => None,
            },
        }
    }
}

/// What an event asks of the file system.
#[derive(Debug, PartialEq, Eq)]
pub enum Work {
    /// Nothing.
    Nothing,
    /// Make the directory, if it is not there; see [`ensure_dir`].
    MakeDir,
    /// Move the guid's file to a name; see [`reserve`] and [`keep`].
    Keep { guid: String, name: String },
}

/// What a [`Work`] is.
pub enum Task {
    Nothing,
    MakeDir,
    Keep { guid: Seq<char>, name: Seq<char> },
}

impl View for Work {
    type V = Task;

    open spec fn view(&self) -> Task {
        match *self {
            Work::Nothing => Task::Nothing,
            Work::MakeDir => Task::MakeDir,
            Work::Keep { guid, name } => Task::Keep { guid: guid@, name: name@ },
        }
    }
}

/// What came of it.
#[derive(Debug, PartialEq, Eq)]
pub enum Done {
    Nothing,
    Dir(Result<(), String>),
    Kept(Result<String, String>),
}

/// Where a download with this guid is: their number when there is none.
pub open spec fn place_of(list: Seq<Item>, guid: Seq<char>, coming: bool) -> int
    decreases list.len(),
{
    if list.len() == 0 || (list[0].guid == guid && (coming ==> list[0].state == Fate::Coming)) {
        0
    } else {
        1 + place_of(list.drop_first(), guid, coming)
    }
}

/// The downloads still coming.
pub open spec fn only_coming(list: Seq<Item>) -> Seq<Item>
    decreases list.len(),
{
    if list.len() == 0 {
        Seq::empty()
    } else if list.last().state == Fate::Coming {
        only_coming(list.drop_last()).push(list.last())
    } else {
        only_coming(list.drop_last())
    }
}

/// The guid in some parameters, when it is one.
pub open spec fn guid_in(params: Value) -> Option<Seq<char>> {
    match text_of(field(params, "guid"@)) {
        Some(guid) => if guid_like(guid) {
            Some(guid)
        } else {
            None
        },
        None => None,
    }
}

/// The amount that a value is: nothing below zero, no part of one, and no more
/// than the most there is.
pub open spec fn amount(v: Option<Value>) -> Option<u64> {
    match v {
        Some(Value::Number(n)) => Some(n.amount()),
        _ => None,
    }
}

/// The words for a file that did not arrive.
pub open spec fn lost(name: Seq<char>, why: Option<Seq<char>>) -> Seq<char> {
    "couldn't save "@ + clipped(name, NAME_CELLS as int) + match why {
        Some(why) => ": "@ + why,
        None => Seq::empty(),
    }
}

/// `s` without the slashes it ends with.
pub open spec fn unslashed(s: Seq<char>) -> Seq<char>
    decreases s.len(),
{
    if s.len() > 0 && s.last() == '/' {
        unslashed(s.drop_last())
    } else {
        s
    }
}

/// How a saved file is named on the row: the directory as the person would say
/// it, and the file's name, clipped.
pub open spec fn saved_words(path: Seq<char>, dir: Seq<char>, home: Option<Seq<char>>) -> Seq<char> {
    let name = match file_name(path) {
        Some(name) => name,
        None => Seq::empty(),
    };
    unslashed(tilded(dir, home)) + "/"@ + clipped(name, NAME_CELLS as int)
}

/// An item that has heard how much has arrived.
pub open spec fn counted(item: Item, params: Value) -> Item {
    Item {
        received: match amount(field(params, "receivedBytes"@)) {
            Some(n) => n,
            None => item.received,
        },
        total: match amount(field(params, "totalBytes"@)) {
            Some(n) => n,
            None => item.total,
        },
        ..item
    }
}

/// Some guids without one.
pub open spec fn excluding(guids: Seq<Seq<char>>, guid: Seq<char>) -> Seq<Seq<char>>
    decreases guids.len(),
{
    if guids.len() == 0 {
        Seq::empty()
    } else if guids.last() == guid {
        excluding(guids.drop_last(), guid)
    } else {
        excluding(guids.drop_last(), guid).push(guids.last())
    }
}

/// Some guids with one, which is not there twice.
pub open spec fn including(guids: Seq<Seq<char>>, guid: Seq<char>) -> Seq<Seq<char>> {
    if guids.contains(guid) {
        guids
    } else {
        guids.push(guid)
    }
}

/// No download is there twice, every name can be shown as it is, and the ones
/// that are not saved are among `unsaved`, where none is twice.
pub open spec fn followed(list: Seq<Item>, unsaved: Seq<Seq<char>>) -> bool {
    &&& tracked_once(list)
    &&& forall|i: int|
        0 <= i < list.len() ==> (unsaved.contains((#[trigger] list[i]).guid) <==> !(
        list[i].state is Saved))
    &&& forall|i: int| 0 <= i < list.len() ==> all_plain((#[trigger] list[i]).name)
    &&& unsaved.no_duplicates()
}

impl Shelf {
    /// A notice goes after it came, and what was not saved is known.
    pub open spec fn valid(self) -> bool {
        &&& self.notice matches Some((_, until)) ==> until >= NOTICE_FOR
        &&& followed(self.list, self.unsaved)
    }

    /// The partial files of the downloads this run saw begin and not save.
    pub open spec fn partials(self) -> Seq<Seq<char>> {
        self.unsaved.map_values(|guid: Seq<char>| joined(self.dir, guid + PARTIAL_SUFFIX@))
    }

    /// What an event asks of the file system.
    pub open spec fn task(self, event: News) -> Task {
        match guid_in(event.params) {
            Some(guid) => if event.method == "Browser.downloadWillBegin"@ {
                if place_of(self.list, guid, false) == self.list.len() && self.ready is None {
                    Task::MakeDir
                } else {
                    Task::Nothing
                }
            } else if event.method == "Browser.downloadProgress"@ {
                let i = place_of(self.list, guid, true);
                if i < self.list.len() && text_of(field(event.params, "state"@)) == Some(
                    "completed"@,
                ) {
                    Task::Keep { guid, name: self.list[i].name }
                } else {
                    Task::Nothing
                }
            } else {
                Task::Nothing
            },
            None => Task::Nothing,
        }
    }

    /// This with a sentence for the row.
    pub open spec fn noticed(self, words: Seq<char>, now: u64) -> Shelf {
        Shelf { notice: Some((words, (now + NOTICE_FOR) as u64)), ..self }
    }

    /// This once a download has begun.
    pub open spec fn begun(self, guid: Seq<char>, params: Value, now: u64, done: Done) -> Shelf {
        if place_of(self.list, guid, false) < self.list.len() {
            self
        } else {
            let suggested = match text_of(field(params, "suggestedFilename"@)) {
                Some(s) => s,
                None => Seq::empty(),
            };
            Shelf {
                ready: match (self.ready, done) {
                    (None, Done::Dir(made)) => Some(reason(made)),
                    (known, _) => known,
                },
                list: self.list.push(
                    Item {
                        guid,
                        name: safe(suggested),
                        received: 0,
                        total: 0,
                        state: Fate::Coming,
                        began: now,
                    },
                ),
                unsaved: including(self.unsaved, guid),
                ..self
            }
        }
    }

    /// This once a download has got further.
    pub open spec fn progressed(self, guid: Seq<char>, params: Value, now: u64, done: Done) -> Shelf {
        let i = place_of(self.list, guid, true);
        if i >= self.list.len() {
            self
        } else {
            let item = counted(self.list[i], params);
            let ended = |state: Fate| Shelf {
                list: self.list.update(i, Item { state, ..item }),
                ..self
            };
            let said = text_of(field(params, "state"@));
            if said == Some("completed"@) {
                match done {
                    Done::Kept(Ok(path)) => (Shelf {
                        unsaved: excluding(self.unsaved, guid),
                        ..ended(Fate::Saved(path@))
                    }).noticed("saved "@ + saved_words(path@, self.dir, self.home), now),
                    Done::Kept(Err(why)) => ended(Fate::Failed(Some(why@))).noticed(
                        lost(item.name, Some(why@)),
                        now,
                    ),
                    _ => ended(Fate::Coming),
                }
            } else if said == Some("canceled"@) {
                let why = match self.ready {
                    Some(why) => why,
                    None => None,
                };
                if self.quitting {
                    ended(Fate::Failed(why))
                } else {
                    ended(Fate::Failed(why)).noticed(lost(item.name, why), now)
                }
            } else {
                ended(Fate::Coming)
            }
        }
    }

    /// This after an event.
    pub open spec fn taken(self, event: News, now: u64, done: Done) -> Shelf {
        match guid_in(event.params) {
            Some(guid) => if event.method == "Browser.downloadWillBegin"@ {
                self.begun(guid, event.params, now, done)
            } else if event.method == "Browser.downloadProgress"@ {
                self.progressed(guid, event.params, now, done)
            } else {
                self
            },
            None => self,
        }
    }

    /// The words for the row: the newest in flight, else the notice while it
    /// lasts.
    pub open spec fn words(self, now: u64) -> Option<Seq<char>> {
        let coming = only_coming(self.list);
        if coming.len() > 0 {
            let newest = coming.last();
            let words = progress(newest.name, newest.received, newest.total);
            Some(
                sanitized(
                    if coming.len() > 1 {
                        words + ", "@ + decimal((coming.len() - 1) as nat) + " more"@
                    } else {
                        words
                    },
                ),
            )
        } else {
            match self.notice {
                Some((words, until)) => if now >= until {
                    None
                } else {
                    Some(sanitized(words))
                },
                None => None,
            }
        }
    }

    /// This without a notice whose time has come, and the finished downloads it
    /// was the last word on.
    pub open spec fn expired(self, now: u64) -> Shelf {
        match self.notice {
            Some((_, until)) => if now >= until {
                Shelf { notice: None, list: only_coming(self.list), ..self }
            } else {
                self
            },
            None => self,
        }
    }

    /// This once the engine is gone.
    pub open spec fn orphaned(self, now: u64) -> Shelf {
        let coming = only_coming(self.list);
        let died = Shelf { list: all_dead(self.list), ..self };
        if coming.len() > 0 {
            died.noticed(lost(coming.last().name, Some("the engine died"@)), now)
        } else {
            died
        }
    }
}

/// The downloads once the engine is gone.
pub open spec fn all_dead(list: Seq<Item>) -> Seq<Item> {
    list.map_values(
        |item: Item|
            if item.state == Fate::Coming {
                Item { state: Fate::Failed(Some("the engine died"@)), ..item }
            } else {
                item
            },
    )
}

/// The texts of some strings.
pub open spec fn strings_of(v: Seq<String>) -> Seq<Seq<char>> {
    v.map_values(|s: String| s@)
}

/// The place with that guid and none before it is [`place_of`].
proof fn lemma_place_of(list: Seq<Item>, guid: Seq<char>, coming: bool, i: int)
    requires
        0 <= i <= list.len(),
        i < list.len() ==> list[i].guid == guid && (coming ==> list[i].state == Fate::Coming),
        forall|j: int|
            0 <= j < i ==> !((#[trigger] list[j]).guid == guid && (coming ==> list[j].state
                == Fate::Coming)),
    ensures
        place_of(list, guid, coming) == i,
    decreases list.len(),
{
    if i > 0 {
        assert(!(list[0].guid == guid && (coming ==> list[0].state == Fate::Coming)));
        let rest = list.drop_first();
        assert forall|j: int| 0 <= j < i - 1 implies !((#[trigger] rest[j]).guid == guid && (coming
            ==> rest[j].state == Fate::Coming)) by {
            assert(rest[j] == list[j + 1]);
        }
        lemma_place_of(rest, guid, coming, i - 1);
    }
}

/// The amount that a value is.
fn amount_at(params: &Json, name: &str) -> (r: Option<u64>)
    ensures
        r == amount(field(params@, name@)),
{
    match params.get(name) {
        Some(v) => match v.as_number() {
            Some(n) => Some(n.as_amount()),
            None => None,
        },
        None => None,
    }
}

/// The guid in some parameters, when it is one.
fn guid_at(params: &Json) -> (r: Option<&str>)
    ensures
        match r {
            Some(guid) => guid_in(params@) == Some(guid@),
            None => guid_in(params@) is None,
        },
{
    match params.text_at("guid") {
        Some(guid) => if is_guid(guid) {
            Some(guid)
        } else {
            None
        },
        None => None,
    }
}

/// The words for a file that did not arrive.
fn lost_words(name: &str, why: Option<&str>) -> (r: String)
    ensures
        r@ == lost(name@, given(why)),
{
    let mut out = "couldn't save ".to_owned();
    out.append(clip_to(name, NAME_CELLS).as_str());
    match why {
        Some(why) => {
            out.append(": ".to_owned().concat(why).as_str());
        },
        None => {},
    }
    proof {
        assert(out@ =~= lost(name@, given(why)));
    }
    out
}

/// An optional string, borrowed.
fn borrowed(s: &Option<String>) -> (r: Option<&str>)
    ensures
        given(r) == text_in(*s),
{
    match s {
        Some(s) => Some(s.as_str()),
        None => None,
    }
}

/// How a saved file is named on the row.
fn saved_as(path: &str, dir: &str, home: Option<&str>) -> (r: String)
    ensures
        r@ == saved_words(path@, dir@, given(home)),
{
    let name = file_name_of(path);
    let said = chars_of(tilde(dir, home).as_str());
    let mut n: usize = said.len();
    proof {
        assert(said@.take(n as int) =~= said@);
    }
    while n > 0 && said[n - 1] == '/'
        invariant
            n <= said@.len(),
            unslashed(said@) == unslashed(said@.take(n as int)),
        decreases n,
    {
        proof {
            assert(said@.take(n as int).last() == said@[n - 1]);
            assert(said@.take(n as int).drop_last() =~= said@.take(n - 1));
        }
        n -= 1;
    }
    proof {
        if n > 0 {
            assert(said@.take(n as int).last() == said@[n - 1]);
        }
        assert(said@.subrange(0, n as int) =~= said@.take(n as int));
    }
    let mut out = string_of(slice_subrange(said.as_slice(), 0, n));
    out.append("/");
    out.append(clip_to(name.as_str(), NAME_CELLS).as_str());
    out
}

/// Whether two optional texts are the same.
fn same_words(a: &Option<String>, b: &Option<String>) -> (r: bool)
    ensures
        r == (text_in(*a) == text_in(*b)),
{
    match (a, b) {
        (Some(a), Some(b)) => same(a.as_str(), b.as_str()),
        (None, None) => true,
        _ => false,
    }
}

/// Whether a guid is among some.
fn holds_guid(guids: &Vec<String>, guid: &str) -> (r: bool)
    ensures
        r == strings_of(guids@).contains(guid@),
{
    let mut i: usize = 0;
    while i < guids.len()
        invariant
            i <= guids@.len(),
            forall|j: int| 0 <= j < i ==> (#[trigger] strings_of(guids@)[j]) != guid@,
        decreases guids@.len() - i,
    {
        if same(guids[i].as_str(), guid) {
            assert(strings_of(guids@)[i as int] == guid@);
            return true;
        }
        i += 1;
    }
    false
}

/// Some guids without one.
fn all_but(guids: &Vec<String>, guid: &str) -> (r: Vec<String>)
    ensures
        strings_of(r@) == excluding(strings_of(guids@), guid@),
{
    let ghost all = strings_of(guids@);
    let mut out: Vec<String> = Vec::new();
    let mut i: usize = 0;
    proof {
        assert(all.take(0) =~= Seq::<Seq<char>>::empty());
        assert(strings_of(out@) =~= Seq::<Seq<char>>::empty());
    }
    while i < guids.len()
        invariant
            i <= guids@.len(),
            all == strings_of(guids@),
            strings_of(out@) == excluding(all.take(i as int), guid@),
        decreases guids@.len() - i,
    {
        proof {
            assert(all.take(i + 1).drop_last() =~= all.take(i as int));
            assert(all.take(i + 1).last() == guids@[i as int]@);
        }
        if !same(guids[i].as_str(), guid) {
            let ghost kept = strings_of(out@);
            out.push(guids[i].clone());
            proof {
                assert(strings_of(out@) =~= kept.push(guids@[i as int]@));
            }
        }
        i += 1;
    }
    proof {
        assert(all.take(i as int) =~= all);
    }
    out
}

/// Taking a guid out leaves the others, each once.
proof fn lemma_excluding(guids: Seq<Seq<char>>, guid: Seq<char>)
    ensures
        forall|g: Seq<char>|
            #[trigger] excluding(guids, guid).contains(g) <==> guids.contains(g) && g != guid,
        guids.no_duplicates() ==> excluding(guids, guid).no_duplicates(),
    decreases guids.len(),
{
    if guids.len() > 0 {
        let front = guids.drop_last();
        let last = guids.last();
        lemma_excluding(front, guid);
        let kept = excluding(front, guid);
        assert forall|g: Seq<char>| #[trigger] excluding(guids, guid).contains(g) <==> guids.contains(
            g,
        ) && g != guid by {
            assert(guids.contains(g) <==> front.contains(g) || g == last) by {
                if guids.contains(g) {
                    let k = choose|k: int| 0 <= k < guids.len() && guids[k] == g;
                    if k < front.len() {
                        assert(front[k] == g);
                    }
                }
                if front.contains(g) {
                    let k = choose|k: int| 0 <= k < front.len() && front[k] == g;
                    assert(guids[k] == g);
                }
                if g == last {
                    assert(guids[guids.len() - 1] == g);
                }
            }
            if last != guid {
                assert(kept.push(last).contains(g) <==> kept.contains(g) || g == last) by {
                    if kept.contains(g) {
                        let k = choose|k: int| 0 <= k < kept.len() && kept[k] == g;
                        assert(kept.push(last)[k] == g);
                    }
                    assert(kept.push(last)[kept.len() as int] == last);
                }
            }
        }
        if guids.no_duplicates() {
            assert(front.no_duplicates());
            if last != guid {
                assert(!front.contains(last)) by {
                    if front.contains(last) {
                        let k = choose|k: int| 0 <= k < front.len() && front[k] == last;
                        assert(guids[k] == guids[guids.len() - 1]);
                    }
                }
                assert(!kept.contains(last));
                assert forall|a: int, b: int|
                    0 <= a < b < kept.push(last).len() implies kept.push(last)[a] != kept.push(
                    last,
                )[b] by {
                    if b == kept.len() {
                        assert(kept.contains(kept[a]));
                    }
                }
            }
        }
    }
}

/// A download that begins is known, and not saved.
proof fn lemma_begun_is_tracked(
    shelf: Shelf,
    guid: Seq<char>,
    params: Value,
    now: u64,
    done: Done,
)
    requires
        shelf.valid(),
    ensures
        shelf.begun(guid, params, now, done).valid(),
{
    let after = shelf.begun(guid, params, now, done);
    if place_of(shelf.list, guid, false) >= shelf.list.len() {
        lemma_place_holds(shelf.list, guid, false);
        let suggested = match text_of(field(params, "suggestedFilename"@)) {
            Some(s) => s,
            None => Seq::empty(),
        };
        law_a_safe_name_is_one_plain_component(suggested);
        let list = after.list;
        let unsaved = after.unsaved;
        lemma_including(shelf.unsaved, guid);
        assert forall|i: int, j: int| 0 <= i < j < list.len() implies (#[trigger] list[i]).guid != (
        #[trigger] list[j]).guid by {
            if j < shelf.list.len() {
                assert(shelf.list[i].guid != shelf.list[j].guid);
            } else {
                assert(shelf.list[i].guid != guid);
            }
        }
        assert forall|i: int| 0 <= i < list.len() implies (unsaved.contains(
            (#[trigger] list[i]).guid,
        ) <==> !(list[i].state is Saved)) by {
            if i < shelf.list.len() {
                assert(shelf.list[i].guid != guid);
                assert(shelf.unsaved.contains(shelf.list[i].guid) <==> !(
                shelf.list[i].state is Saved));
            }
        }
        assert forall|i: int| 0 <= i < list.len() implies all_plain((#[trigger] list[i]).name) by {
            if i < shelf.list.len() {
                assert(all_plain(shelf.list[i].name));
            }
        }
    }
}

/// Putting a guid in keeps the others, each once.
proof fn lemma_including(guids: Seq<Seq<char>>, guid: Seq<char>)
    ensures
        forall|g: Seq<char>| #[trigger]
            including(guids, guid).contains(g) <==> guids.contains(g) || g == guid,
        guids.no_duplicates() ==> including(guids, guid).no_duplicates(),
{
    if !guids.contains(guid) {
        let all = guids.push(guid);
        assert forall|g: Seq<char>| #[trigger] all.contains(g) <==> guids.contains(g) || g
            == guid by {
            if guids.contains(g) {
                let k = choose|k: int| 0 <= k < guids.len() && guids[k] == g;
                assert(all[k] == g);
            }
            assert(all[guids.len() as int] == guid);
        }
        if guids.no_duplicates() {
            assert forall|a: int, b: int| 0 <= a < b < all.len() implies all[a] != all[b] by {
                if b == guids.len() {
                    assert(guids.contains(guids[a]));
                }
            }
        }
    }
}

/// One download that changed, and was saved if its guid went.
proof fn lemma_changed_is_tracked(
    list: Seq<Item>,
    unsaved: Seq<Seq<char>>,
    i: int,
    item: Item,
)
    requires
        followed(list, unsaved),
        0 <= i < list.len(),
        item.guid == list[i].guid,
        item.name == list[i].name,
        list[i].state == Fate::Coming,
    ensures
        followed(
            list.update(i, item),
            if item.state is Saved {
                excluding(unsaved, item.guid)
            } else {
                unsaved
            },
        ),
{
    lemma_excluding(unsaved, item.guid);
    let after = list.update(i, item);
    let left = if item.state is Saved {
        excluding(unsaved, item.guid)
    } else {
        unsaved
    };
    assert(unsaved.contains(list[i].guid));
    assert forall|a: int, b: int| 0 <= a < b < after.len() implies (#[trigger] after[a]).guid != (
    #[trigger] after[b]).guid by {
        assert(list[a].guid != list[b].guid);
    }
    assert forall|k: int| 0 <= k < after.len() implies (left.contains((#[trigger] after[k]).guid)
        <==> !(after[k].state is Saved)) by {
        assert(unsaved.contains(list[k].guid) <==> !(list[k].state is Saved));
        if k < i {
            assert(list[k].guid != list[i].guid);
        } else if k > i {
            assert(list[i].guid != list[k].guid);
        }
    }
    assert forall|k: int| 0 <= k < after.len() implies all_plain((#[trigger] after[k]).name) by {
        assert(all_plain(list[k].name));
    }
}

/// A download that got further is still known, and is saved if it arrived.
proof fn lemma_progressed_is_tracked(
    shelf: Shelf,
    guid: Seq<char>,
    params: Value,
    now: u64,
    done: Done,
)
    requires
        shelf.valid(),
        now <= u64::MAX - NOTICE_FOR,
    ensures
        shelf.progressed(guid, params, now, done).valid(),
{
    let i = place_of(shelf.list, guid, true);
    lemma_place_holds(shelf.list, guid, true);
    if i < shelf.list.len() {
        let after = shelf.progressed(guid, params, now, done);
        let item = counted(shelf.list[i], params);
        lemma_changed_is_tracked(
            shelf.list,
            shelf.unsaved,
            i,
            Item { state: after.list[i].state, ..item },
        );
    }
}

/// Of the downloads that are known, those still coming are.
proof fn lemma_coming_are_tracked(list: Seq<Item>, unsaved: Seq<Seq<char>>)
    requires
        followed(list, unsaved),
    ensures
        followed(only_coming(list), unsaved),
        forall|i: int|
            0 <= i < only_coming(list).len() ==> list.contains(#[trigger] only_coming(list)[i]),
    decreases list.len(),
{
    if list.len() > 0 {
        let front = list.drop_last();
        assert(followed(front, unsaved)) by {
            assert forall|i: int, j: int|
                0 <= i < j < front.len() implies (#[trigger] front[i]).guid != (
            #[trigger] front[j]).guid by {
                assert(list[i].guid != list[j].guid);
            }
            assert forall|i: int| 0 <= i < front.len() implies (unsaved.contains(
                (#[trigger] front[i]).guid,
            ) <==> !(front[i].state is Saved)) by {
                assert(unsaved.contains(list[i].guid) <==> !(list[i].state is Saved));
            }
            assert forall|i: int| 0 <= i < front.len() implies all_plain(
                (#[trigger] front[i]).name,
            ) by {
                assert(all_plain(list[i].name));
            }
        }
        lemma_coming_are_tracked(front, unsaved);
        let before = only_coming(front);
        let after = only_coming(list);
        assert forall|i: int| 0 <= i < after.len() implies list.contains(#[trigger] after[i]) by {
            if i < before.len() {
                assert(front.contains(before[i]));
                let k = choose|k: int| 0 <= k < front.len() && front[k] == before[i];
                assert(list[k] == after[i]);
            } else {
                assert(list[list.len() - 1] == after[i]);
            }
        }
        let last = list.len() - 1;
        assert forall|i: int, j: int|
            0 <= i < j < after.len() implies (#[trigger] after[i]).guid != (
        #[trigger] after[j]).guid by {
            if j < before.len() {
                assert(before[i].guid != before[j].guid);
            } else {
                assert(front.contains(before[i]));
                let k = choose|k: int| 0 <= k < front.len() && front[k] == before[i];
                assert(list[k].guid != list[last].guid);
            }
        }
        assert forall|i: int| 0 <= i < after.len() implies (unsaved.contains(
            (#[trigger] after[i]).guid,
        ) <==> !(after[i].state is Saved)) && all_plain(after[i].name) by {
            if i < before.len() {
                assert(unsaved.contains(before[i].guid) <==> !(before[i].state is Saved));
                assert(all_plain(before[i].name));
            } else {
                assert(unsaved.contains(list[last].guid) <==> !(list[last].state is Saved));
                assert(all_plain(list[last].name));
            }
        }
    }
}

/// Downloads that are known stay so when the engine dies.
proof fn lemma_dead_are_tracked(list: Seq<Item>, unsaved: Seq<Seq<char>>)
    requires
        followed(list, unsaved),
    ensures
        followed(all_dead(list), unsaved),
{
    let dead = all_dead(list);
    assert forall|i: int, j: int| 0 <= i < j < dead.len() implies (#[trigger] dead[i]).guid != (
    #[trigger] dead[j]).guid by {
        assert(list[i].guid != list[j].guid);
    }
    assert forall|i: int| 0 <= i < dead.len() implies (unsaved.contains((#[trigger] dead[i]).guid)
        <==> !(dead[i].state is Saved)) && all_plain(dead[i].name) by {
        assert(unsaved.contains(list[i].guid) <==> !(list[i].state is Saved));
        assert(all_plain(list[i].name));
    }
}

impl Downloads {
    /// A notice goes after it came, and what was not saved is known.
    pub open spec fn wf(self) -> bool {
        self@.valid()
    }

    /// Downloads into `dir`, said on the row relative to `home`, when that is
    /// absolute.
    pub fn new(dir: String, home: Option<String>) -> (r: Downloads)
        ensures
            r.wf(),
            r@ == (Shelf {
                dir: dir@,
                home: match text_in(home) {
                    Some(h) => if is_absolute(h) {
                        Some(h)
                    } else {
                        None
                    },
                    None => None,
                },
                list: Seq::empty(),
                unsaved: Seq::empty(),
                notice: None,
                quitting: false,
                ready: None,
            }),
    {
        let kept = match home {
            Some(h) => if absolute(h.as_str()) {
                Some(h)
            } else {
                None
            },
            None => None,
        };
        let r = Downloads {
            dir,
            home: kept,
            list: Vec::new(),
            unsaved: Vec::new(),
            notice: None,
            quitting: false,
            dir_ready: None,
        };
        proof {
            assert(r@.list =~= Seq::empty());
            assert(r@.unsaved =~= Seq::empty());
        }
        r
    }

    /// Where they go.
    pub fn dir(&self) -> (r: &str)
        ensures
            r@ == self@.dir,
    {
        self.dir.as_str()
    }

    /// Every download this run still remembers, oldest first.
    pub fn all(&self) -> (r: &[Download])
        ensures
            items(r@) == self@.list,
    {
        self.list.as_slice()
    }

    /// Where a download with this guid is, still coming or not.
    fn place(&self, guid: &str, coming: bool) -> (i: usize)
        ensures
            i == place_of(self@.list, guid@, coming),
            i <= self.list@.len(),
    {
        let mut i: usize = 0;
        while i < self.list.len()
            invariant
                i <= self.list@.len(),
                forall|j: int|
                    0 <= j < i ==> !((#[trigger] self@.list[j]).guid == guid@ && (coming
                        ==> self@.list[j].state == Fate::Coming)),
            decreases self.list@.len() - i,
        {
            let on_its_way = match self.list[i].state {
                State::InProgress => true,
                _ => false,
            };
            proof {
                assert(self@.list[i as int] == self.list@[i as int]@);
            }
            if same(self.list[i].guid.as_str(), guid) && (on_its_way || !coming) {
                proof {
                    lemma_place_of(self@.list, guid@, coming, i as int);
                }
                return i;
            }
            i += 1;
        }
        proof {
            lemma_place_of(self@.list, guid@, coming, i as int);
        }
        i
    }

    /// What an event asks of the file system before it is taken: the directory
    /// made, the first time a download begins; the finished file moved to its
    /// name.
    pub fn work(&self, event: &Event) -> (r: Work)
        ensures
            r@ == self@.task(event@),
    {
        let guid = match guid_at(&event.params) {
            Some(guid) => guid,
            None => return Work::Nothing,
        };
        if same(event.method.as_str(), "Browser.downloadWillBegin") {
            if self.place(guid, false) == self.list.len() && self.dir_ready.is_none() {
                return Work::MakeDir;
            }
            return Work::Nothing;
        }
        if same(event.method.as_str(), "Browser.downloadProgress") {
            let i = self.place(guid, true);
            if i < self.list.len() && event.params.says("state", "completed") {
                return Work::Keep { guid: guid.to_owned(), name: self.list[i].name.clone() };
            }
        }
        Work::Nothing
    }

    /// A download has begun.
    fn begin(&mut self, guid: &str, params: &Json, now: u64, done: Done)
        requires
            old(self).wf(),
        ensures
            final(self).wf(),
            final(self)@ == old(self)@.begun(guid@, params@, now, done),
    {
        if self.place(guid, false) < self.list.len() {
            return;
        }
        if self.dir_ready.is_none() {
            match done {
                Done::Dir(made) => {
                    self.dir_ready = Some(made);
                },
                _ => {},
            }
        }
        let name = match params.text_at("suggestedFilename") {
            Some(suggested) => safe_name(suggested),
            None => {
                proof {
                    reveal_strlit("");
                    assert(""@ =~= Seq::<char>::empty());
                }
                safe_name("")
            },
        };
        let ghost before = self@.list;
        let download = Download {
            guid: guid.to_owned(),
            name,
            received: 0,
            total: 0,
            state: State::InProgress,
            began: now,
        };
        let ghost item = download@;
        self.list.push(download);
        if !holds_guid(&self.unsaved, guid) {
            let ghost known = strings_of(self.unsaved@);
            self.unsaved.push(guid.to_owned());
            proof {
                assert(strings_of(self.unsaved@) =~= known.push(guid@));
            }
        }
        proof {
            assert(self@.list =~= before.push(item));
            assert(self@ =~= old(self)@.begun(guid@, params@, now, done));
            lemma_begun_is_tracked(old(self)@, guid@, params@, now, done);
        }
    }

    /// A download has got further.
    fn progress(&mut self, guid: &str, params: &Json, now: u64, done: Done)
        requires
            old(self).wf(),
            now <= u64::MAX - NOTICE_FOR,
        ensures
            final(self).wf(),
            final(self)@ == old(self)@.progressed(guid@, params@, now, done),
    {
        let i = self.place(guid, true);
        if i >= self.list.len() {
            return;
        }
        let received = match amount_at(params, "receivedBytes") {
            Some(n) => n,
            None => self.list[i].received,
        };
        let total = match amount_at(params, "totalBytes") {
            Some(n) => n,
            None => self.list[i].total,
        };
        let name = self.list[i].name.clone();
        let ghost item = counted(self@.list[i as int], params@);
        proof {
            assert(self@.list[i as int] == self.list@[i as int]@);
        }
        let mut state = State::InProgress;
        let mut words: Option<String> = None;
        if params.says("state", "completed") {
            match done {
                Done::Kept(Ok(path)) => {
                    let said = saved_as(path.as_str(), self.dir.as_str(), borrowed(&self.home));
                    words = Some("saved ".to_owned().concat(said.as_str()));
                    state = State::Saved(path);
                },
                Done::Kept(Err(why)) => {
                    words = Some(lost_words(name.as_str(), Some(why.as_str())));
                    state = State::Failed(Some(why));
                },
                _ => {},
            }
        } else if params.says("state", "canceled") {
            let why = match &self.dir_ready {
                Some(Err(why)) => Some(why.clone()),
                _ => None,
            };
            if !self.quitting {
                words = Some(lost_words(name.as_str(), borrowed(&why)));
            }
            state = State::Failed(why);
        }
        let ghost fate = state@;
        let saved = match state {
            State::Saved(_) => true,
            _ => false,
        };
        if saved {
            self.unsaved = all_but(&self.unsaved, guid);
        }
        let download = &mut self.list[i];
        download.received = received;
        download.total = total;
        download.state = state;
        proof {
            assert(self@.list =~= old(self)@.list.update(i as int, Item { state: fate, ..item }));
        }
        match words {
            Some(words) => {
                self.notice = Some((words, now + NOTICE_FOR));
            },
            None => {},
        }
        proof {
            assert(self@ =~= old(self)@.progressed(guid@, params@, now, done));
            lemma_progressed_is_tracked(old(self)@, guid@, params@, now, done);
        }
    }

    /// What one event from the browser connection does, `done` being what came
    /// of its [`Downloads::work`]. `true` when the words on the row are not what
    /// they were.
    ///
    /// `Browser.downloadWillBegin` adds an entry. `Browser.downloadProgress`
    /// updates it; `completed` is a file in its place or a failure, and
    /// `canceled` a failure, unless this run did the cancelling. Anything else
    /// is ignored, which includes a guid that is not one.
    pub fn take(&mut self, event: &Event, now: u64, done: Done) -> (r: bool)
        requires
            old(self).wf(),
            now <= u64::MAX - NOTICE_FOR,
            old(self)@.task(event@) is MakeDir ==> done is Dir,
            old(self)@.task(event@) is Keep ==> done is Kept,
        ensures
            final(self).wf(),
            final(self)@ == old(self)@.taken(event@, now, done),
            r == (final(self)@.words(now) != old(self)@.words(now)),
    {
        let guid = match guid_at(&event.params) {
            Some(guid) => guid,
            None => return false,
        };
        let before = self.line(now);
        if same(event.method.as_str(), "Browser.downloadWillBegin") {
            self.begin(guid, &event.params, now, done);
        } else if same(event.method.as_str(), "Browser.downloadProgress") {
            self.progress(guid, &event.params, now, done);
        } else {
            return false;
        }
        let after = self.line(now);
        !same_words(&after, &before)
    }

    /// The words for the row right now, or nothing: the newest in flight
    /// (`, 1 more` for the rest), else the notice while it lasts.
    ///
    /// Plain text already, and sanitized all the same, because a reason from
    /// the file system quotes a path and this is words on a terminal.
    pub fn line(&self, now: u64) -> (r: Option<String>)
        ensures
            text_in(r) == self@.words(now),
    {
        let coming = self.in_flight();
        proof {
            assert(items_of(coming@).len() == coming@.len());
        }
        if coming.len() > 0 {
            let newest = coming[coming.len() - 1];
            proof {
                assert(items_of(coming@).last() == newest@);
            }
            let mut words = progress_words(newest.name.as_str(), newest.received, newest.total);
            if coming.len() > 1 {
                words.append(", ");
                words.append(decimal_string(coming.len() as u64 - 1).as_str());
                words.append(" more");
            }
            return Some(sanitize(words.as_str()));
        }
        match &self.notice {
            Some((words, until)) => if now >= *until {
                None
            } else {
                Some(sanitize(words.as_str()))
            },
            None => None,
        }
    }

    /// When the words will change without an event: the notice's end.
    pub fn expires(&self) -> (r: Option<u64>)
        ensures
            r == (match self@.notice {
                Some((_, until)) => Some(until),
                None => None,
            }),
    {
        match &self.notice {
            Some((_, until)) => Some(*until),
            None => None,
        }
    }

    /// Drop a notice whose time has come, and the finished downloads it was
    /// the last word on. `true` when the row changed.
    pub fn expire(&mut self, now: u64) -> (r: bool)
        requires
            old(self).wf(),
        ensures
            final(self).wf(),
            final(self)@ == old(self)@.expired(now),
            r == (match old(self)@.notice {
                Some((_, until)) => now >= until && old(self)@.words((until - 1) as u64)
                    != final(self)@.words(now),
                None => false,
            }),
    {
        let until = match self.expires() {
            Some(until) => until,
            None => return false,
        };
        if now < until {
            return false;
        }
        let before = self.line(until - 1);
        self.notice = None;
        let mut was: Vec<Download> = Vec::new();
        std::mem::swap(&mut was, &mut self.list);
        let ghost all = items(was@);
        proof {
            assert(all.take(0) =~= Seq::<Item>::empty());
            assert(items(self.list@) =~= Seq::<Item>::empty());
        }
        for download in it: was
            invariant
                it.seq() == was@,
                all == items(was@),
                items(self.list@) == only_coming(all.take(it.index() as int)),
                self.dir == old(self).dir,
                self.home == old(self).home,
                self.notice is None,
                self.unsaved == old(self).unsaved,
                self.quitting == old(self).quitting,
                self.dir_ready == old(self).dir_ready,
        {
            let ghost i = it.index() as int;
            proof {
                assert(all.take(i + 1).drop_last() =~= all.take(i));
                assert(all.take(i + 1).last() == download@);
            }
            let coming = match download.state {
                State::InProgress => true,
                _ => false,
            };
            if coming {
                let ghost kept = items(self.list@);
                let ghost item = download@;
                self.list.push(download);
                proof {
                    assert(items(self.list@) =~= kept.push(item));
                }
            }
        }
        proof {
            assert(all.take(all.len() as int) =~= all);
            assert(self@ =~= old(self)@.expired(now));
            lemma_coming_are_tracked(all, self@.unsaved);
        }
        let after = self.line(now);
        !same_words(&before, &after)
    }

    /// The downloads still coming, oldest first.
    pub fn in_flight(&self) -> (r: Vec<&Download>)
        ensures
            items_of(r@) == only_coming(self@.list),
    {
        let ghost all = self@.list;
        let mut out: Vec<&Download> = Vec::new();
        let mut i: usize = 0;
        proof {
            assert(all.take(0) =~= Seq::<Item>::empty());
            assert(items_of(out@) =~= Seq::<Item>::empty());
        }
        while i < self.list.len()
            invariant
                i <= self.list@.len(),
                all == items(self.list@),
                items_of(out@) == only_coming(all.take(i as int)),
            decreases self.list@.len() - i,
        {
            proof {
                assert(all.take(i + 1).drop_last() =~= all.take(i as int));
                assert(all.take(i + 1).last() == self.list@[i as int]@);
            }
            let coming = match self.list[i].state {
                State::InProgress => true,
                _ => false,
            };
            if coming {
                let ghost kept = items_of(out@);
                out.push(&self.list[i]);
                proof {
                    assert(items_of(out@) =~= kept.push(self.list@[i as int]@));
                }
            }
            i += 1;
        }
        proof {
            assert(all.take(i as int) =~= all);
        }
        out
    }

    /// Say that this run is on its way out: a `canceled` from here on is one
    /// this program asked for, and is nobody's news.
    pub fn quit(&mut self)
        requires
            old(self).wf(),
        ensures
            final(self).wf(),
            final(self)@ == (Shelf { quitting: true, ..old(self)@ }),
    {
        self.quitting = true;
    }

    /// The engine is gone: every download still coming is over, and did not
    /// arrive; the newest of them is the row's notice. `true` when the row's
    /// words changed.
    ///
    /// Not [`Downloads::quit`]: the program goes on, on a new engine, and a
    /// download that begins there is news like any other.
    pub fn engine_died(&mut self, now: u64) -> (r: bool)
        requires
            old(self).wf(),
            now <= u64::MAX - NOTICE_FOR,
        ensures
            final(self).wf(),
            final(self)@ == old(self)@.orphaned(now),
            r == (final(self)@.words(now) != old(self)@.words(now)),
    {
        let before = self.line(now);
        let newest = self.newest();
        let ghost all = self@.list;
        let mut i: usize = 0;
        while i < self.list.len()
            invariant
                i <= self.list@.len(),
                all == old(self)@.list,
                all.len() == self.list@.len(),
                forall|j: int|
                    0 <= j < i ==> #[trigger] self.list@[j]@ == all_dead(all)[j],
                forall|j: int| i <= j < self.list@.len() ==> #[trigger] self.list@[j]@ == all[j],
                self.dir == old(self).dir,
                self.home == old(self).home,
                self.notice == old(self).notice,
                self.unsaved == old(self).unsaved,
                self.quitting == old(self).quitting,
                self.dir_ready == old(self).dir_ready,
            decreases self.list@.len() - i,
        {
            proof {
                assert(self.list@[i as int]@ == all[i as int]);
            }
            let coming = match self.list[i].state {
                State::InProgress => true,
                _ => false,
            };
            if coming {
                let why = "the engine died".to_owned();
                let download = &mut self.list[i];
                download.state = State::Failed(Some(why));
            }
            proof {
                assert(self.list@[i as int]@ =~= all_dead(all)[i as int]);
            }
            i += 1;
        }
        proof {
            assert(self@.list =~= all_dead(all));
        }
        match newest {
            Some(name) => {
                self.notice = Some(
                    (lost_words(name.as_str(), Some("the engine died")), now + NOTICE_FOR),
                );
            },
            None => {},
        }
        proof {
            assert(self@ =~= old(self)@.orphaned(now));
            lemma_dead_are_tracked(all, self@.unsaved);
        }
        let after = self.line(now);
        !same_words(&after, &before)
    }

    /// The name of the newest download still coming.
    fn newest(&self) -> (r: Option<String>)
        ensures
            match r {
                Some(name) => only_coming(self@.list).len() > 0 && name@ == only_coming(
                    self@.list,
                ).last().name,
                None => only_coming(self@.list).len() == 0,
            },
    {
        let coming = self.in_flight();
        proof {
            assert(items_of(coming@).len() == coming@.len());
        }
        if coming.len() == 0 {
            return None;
        }
        let last = coming[coming.len() - 1];
        proof {
            assert(items_of(coming@).last() == last@);
        }
        Some(last.name.clone())
    }

    /// The guids to cancel on the way out, one `Browser.cancelDownload` each,
    /// and [`Downloads::quit`].
    pub fn cancel_all(&mut self) -> (r: Vec<String>)
        requires
            old(self).wf(),
        ensures
            final(self).wf(),
            final(self)@ == (Shelf { quitting: true, ..old(self)@ }),
            strings_of(r@) == only_coming(old(self)@.list).map_values(|item: Item| item.guid),
    {
        let mut out: Vec<String> = Vec::new();
        let coming = self.in_flight();
        let ghost all = items_of(coming@);
        let mut i: usize = 0;
        while i < coming.len()
            invariant
                i <= coming@.len(),
                all == items_of(coming@),
                out@.len() == i,
                forall|k: int| 0 <= k < i ==> #[trigger] out@[k]@ == all[k].guid,
            decreases coming@.len() - i,
        {
            out.push(coming[i].guid.clone());
            i += 1;
        }
        proof {
            assert(strings_of(out@) =~= all.map_values(|item: Item| item.guid));
        }
        self.quit();
        out
    }

    /// The `<guid>.crdownload` files of downloads this run saw begin and not
    /// save, for removal once the engine is gone and cannot be writing them.
    /// Only those: the directory is the person's.
    ///
    /// A cancelled one is among them although the engine removes its own
    /// partial, because it removes it after it has said so, and an engine that
    /// is killed in between leaves it; and it stays among them when the row has
    /// nothing more to say of it.
    pub fn partials(&self) -> (r: Vec<String>)
        ensures
            strings_of(r@) == self@.partials(),
    {
        let mut out: Vec<String> = Vec::new();
        let mut i: usize = 0;
        while i < self.unsaved.len()
            invariant
                i <= self.unsaved@.len(),
                out@.len() == i,
                forall|k: int|
                    0 <= k < i ==> #[trigger] out@[k]@ == joined(
                        self.dir@,
                        self.unsaved@[k]@ + PARTIAL_SUFFIX@,
                    ),
            decreases self.unsaved@.len() - i,
        {
            let name = self.unsaved[i].clone().concat(PARTIAL_SUFFIX);
            out.push(join(self.dir.as_str(), name.as_str()));
            i += 1;
        }
        proof {
            assert(strings_of(out@) =~= self@.partials());
        }
        out
    }
}

/// The parameters of the `Browser.cancelDownload` for a guid.
pub fn cancel_params(guid: &str) -> (r: Json)
    ensures
        r@ == cancelling(guid@),
        r@ == Value::Record(seq![("guid"@, Value::Text(guid@))]),
{
    let fields = vec![("guid", Json::string(guid))];
    proof {
        assert(record_of(fields@) =~= seq![("guid"@, Value::Text(guid@))]);
    }
    Json::object(fields)
}

/// The parameters of the `Browser.setDownloadBehavior` that tells the engine
/// where, and to say what it is doing.
///
/// Sent once, before any page can be asked for anything. `dir` is absolute:
/// the engine would resolve a relative one against its own directory.
pub fn enable(dir: &str) -> (r: Json)
    ensures
        r@ == enabling(dir@),
        r@ == Value::Record(
            seq![
                ("behavior"@, Value::Text("allowAndName"@)),
                ("downloadPath"@, Value::Text(dir@)),
                ("eventsEnabled"@, Value::Bool(true)),
            ],
        ),
{
    let fields = vec![
        ("behavior", Json::string("allowAndName")),
        ("downloadPath", Json::string(dir)),
        ("eventsEnabled", Json::Bool(true)),
    ];
    proof {
        assert(record_of(fields@) =~= seq![
            ("behavior"@, Value::Text("allowAndName"@)),
            ("downloadPath"@, Value::Text(dir@)),
            ("eventsEnabled"@, Value::Bool(true)),
        ]);
    }
    Json::object(fields)
}

/// The sentence for an engine that would not be told where.
pub fn not_enabled(why: &str) -> (r: String)
    ensures
        r@ == "cannot tell the engine where to save files: "@ + why@,
{
    "cannot tell the engine where to save files: ".to_owned().concat(why)
}

// ---- laws ----

/// What a component is made of.
pub open spec fn one_component(s: Seq<char>) -> bool {
    all_plain(s) && forall|i: int| 0 <= i < s.len() ==> !is_separator(#[trigger] s[i])
}

/// What stands after the last separator holds none.
proof fn lemma_tail_part(s: Seq<char>)
    ensures
        forall|i: int| 0 <= i < tail_part(s).len() ==> !is_separator(#[trigger] tail_part(s)[i]),
    decreases s.len(),
{
    if s.len() > 0 {
        let front = tail_part(s.drop_last());
        lemma_tail_part(s.drop_last());
        assert forall|i: int| 0 <= i < tail_part(s).len() implies !is_separator(
            #[trigger] tail_part(s)[i],
        ) by {
            if i < front.len() {
                assert(tail_part(s)[i] == front[i]);
            }
        }
    }
}

/// The last component holds no separator.
proof fn lemma_last_part(s: Seq<char>)
    ensures
        forall|i: int| 0 <= i < last_part(s).len() ==> !is_separator(#[trigger] last_part(s)[i]),
    decreases s.len(),
{
    lemma_tail_part(s);
    if s.len() > 0 && is_separator(s.last()) {
        lemma_last_part(s.drop_last());
        assert(last_part(s) == last_part(s.drop_last()));
    } else {
        assert(last_part(s) == tail_part(s));
    }
}

/// A component that was cleaned is one, and plain.
proof fn lemma_cleaned(s: Seq<char>)
    requires
        forall|i: int| 0 <= i < s.len() ==> !is_separator(#[trigger] s[i]),
    ensures
        one_component(cleaned(s)),
    decreases s.len(),
{
    if s.len() > 0 {
        let front = s.drop_last();
        assert forall|i: int| 0 <= i < front.len() implies !is_separator(#[trigger] front[i]) by {
            assert(front[i] == s[i]);
        }
        lemma_cleaned(front);
        assert(!is_separator(s[s.len() - 1]));
    }
}

/// A front of a component, and two of them joined, are one.
proof fn lemma_components(a: Seq<char>, n: int, b: Seq<char>)
    requires
        one_component(a),
        one_component(b),
        0 <= n <= a.len(),
    ensures
        one_component(a.take(n)),
        one_component(a.skip(n)),
        one_component(a + b),
{
    assert forall|i: int| 0 <= i < n implies plain(#[trigger] a.take(n)[i]) && !is_separator(
        a.take(n)[i],
    ) by {
        assert(a.take(n)[i] == a[i]);
    }
    assert forall|i: int| 0 <= i < a.len() - n implies plain(#[trigger] a.skip(n)[i])
        && !is_separator(a.skip(n)[i]) by {
        assert(a.skip(n)[i] == a[n + i]);
    }
    assert forall|i: int| 0 <= i < a.len() + b.len() implies plain(#[trigger] (a + b)[i])
        && !is_separator((a + b)[i]) by {
        if i < a.len() {
            assert((a + b)[i] == a[i]);
        } else {
            assert((a + b)[i] == b[i - a.len()]);
        }
    }
}

/// Where an extension starts is in the name, and it is short.
proof fn lemma_extension(name: Seq<char>)
    ensures
        0 <= extension_at(name) <= name.len(),
        extension_at(name) == 0 ==> name.len() == 0,
        byte_len(extension(name)) <= EXTENSION_BYTES,
        stem(name) + extension(name) == name,
{
    lemma_last_index(name, '.');
    assert(stem(name) + extension(name) =~= name);
    if extension_at(name) == name.len() {
        assert(extension(name) =~= Seq::<char>::empty());
    }
}

/// The last place of a character is in the text.
proof fn lemma_last_index(s: Seq<char>, c: char)
    ensures
        -1 <= last_index_of(s, c) < s.len(),
    decreases s.len(),
{
    if s.len() > 0 {
        lemma_last_index(s.drop_last(), c);
    }
}

/// A cut text that has room for a character keeps the first.
proof fn lemma_cut_keeps_the_first(s: Seq<char>, room: int)
    requires
        s.len() > 0,
        room >= 4,
    ensures
        cut_to(s, room).len() > 0,
        cut_to(s, room)[0] == s[0],
{
    lemma_cut(s, room);
    let n = cut_to(s, room).len() as int;
    if n == 0 {
        let one = s.take(1);
        assert(one.drop_last() =~= Seq::<char>::empty());
        assert(byte_len(one.drop_last()) == 0);
        assert(byte_len(one) <= 4);
    }
    assert(s.take(n)[0] == s[0]);
}

/// A name that is cut to fit does, is made of the same characters, and starts
/// as it did.
proof fn lemma_fitted(name: Seq<char>)
    requires
        name.len() > 0,
        one_component(name),
    ensures
        byte_len(fitted(name, NAME_BYTES as int)) <= NAME_BYTES,
        one_component(fitted(name, NAME_BYTES as int)),
        fitted(name, NAME_BYTES as int).len() > 0,
        fitted(name, NAME_BYTES as int)[0] == name[0],
{
    lemma_extension(name);
    let at = extension_at(name);
    let front = stem(name);
    let tail = extension(name);
    let room = NAME_BYTES - byte_len(tail);
    lemma_components(name, at, name);
    lemma_cut(front, room);
    lemma_cut_keeps_the_first(front, room);
    let kept = cut_to(front, room);
    lemma_components(front, kept.len() as int, tail);
    lemma_components(kept, 0, tail);
    lemma_byte_len_concat(kept, tail);
    assert(front[0] == name[0]);
    if byte_len(name) > NAME_BYTES {
        assert((kept + tail)[0] == kept[0]);
    }
}

/// Whatever a page suggests, the name is one path component that can be joined
/// and shown: not empty, plain, without a separator, no longer than a filename
/// may be, and not hidden.
pub proof fn law_a_safe_name_is_one_plain_component(suggested: Seq<char>)
    ensures
        one_component(safe(suggested)),
        0 < safe(suggested).len(),
        byte_len(safe(suggested)) <= NAME_BYTES,
        safe(suggested)[0] != '.',
        !is_space(safe(suggested)[0]),
{
    let part = last_part(suggested);
    let kept = cleaned(part);
    let name = strip(kept, Edge::Dots);
    lemma_last_part(suggested);
    lemma_cleaned(part);
    lemma_strip(kept, Edge::Dots);
    if name.len() == 0 {
        reveal_strlit("download");
        let word = "download"@;
        assert forall|i: int| 0 <= i < word.len() implies plain(#[trigger] word[i])
            && !is_separator(word[i]) by {}
        assert(byte_len(word) <= NAME_BYTES) by {
            lemma_byte_len_bounds(word);
        }
    } else {
        assert forall|i: int| 0 <= i < name.len() implies plain(#[trigger] name[i])
            && !is_separator(name[i]) by {
            assert(name.contains(name[i]));
            assert(kept.contains(name[i]));
            let j = choose|j: int| 0 <= j < kept.len() && kept[j] == name[i];
            assert(plain(kept[j]) && !is_separator(kept[j]));
        }
        lemma_fitted(name);
    }
}

/// Ten digits at most.
proof fn lemma_decimal_is_short(n: nat, digits: nat)
    requires
        n < crate::double::pow10(digits),
        digits >= 1,
    ensures
        decimal(n).len() <= digits,
        byte_len(decimal(n)) == decimal(n).len(),
    decreases digits,
{
    lemma_decimal(n);
    if n >= 10 {
        if digits == 1 {
            assert(crate::double::pow10(1) == 10) by {
                reveal_with_fuel(crate::double::pow10, 2);
            }
        } else {
            assert(crate::double::pow10(digits) == 10 * crate::double::pow10((digits - 1) as nat));
            lemma_decimal_is_short(n / 10, (digits - 1) as nat);
        }
        let d = decimal(n);
        assert(d.drop_last() =~= decimal(n / 10));
        assert(crate::strings::char_bytes(d.last()) == 1);
    } else {
        let d = decimal(n);
        assert(d.drop_last() =~= Seq::<char>::empty());
        assert(byte_len(d.drop_last()) == 0);
    }
}

/// What tells an alternative from the others is short, plain and no separator.
proof fn lemma_suffix(n: u32)
    ensures
        byte_len(suffix(n)) <= 13,
        one_component(suffix(n)),
{
    reveal_strlit(" (");
    reveal_strlit(")");
    assert(crate::double::pow10(10) == 10_000_000_000) by {
        reveal_with_fuel(crate::double::pow10, 11);
    }
    let d = decimal(n as nat);
    lemma_decimal_is_short(n as nat, 10);
    lemma_decimal(n as nat);
    lemma_byte_len_concat(" ("@, d);
    lemma_byte_len_concat(" ("@ + d, ")"@);
    assert(byte_len(" ("@) == 2) by {
        let s = " ("@;
        assert(s.drop_last().drop_last() =~= Seq::<char>::empty());
        assert(byte_len(s.drop_last().drop_last()) == 0);
        assert(s.drop_last().last() == ' ');
        assert(byte_len(s.drop_last()) == 1);
    }
    assert(byte_len(")"@) == 1) by {
        let s = ")"@;
        assert(s.drop_last() =~= Seq::<char>::empty());
        assert(byte_len(s.drop_last()) == 0);
    }
    let all = suffix(n);
    assert forall|i: int| 0 <= i < all.len() implies plain(#[trigger] all[i]) && !is_separator(
        all[i],
    ) by {
        if 2 <= i < all.len() - 1 {
            assert(all[i] == d[i - 2]);
            assert(is_digit(d[i - 2]));
        }
    }
}

/// An alternative to a name that is one plain component is one too, and no
/// longer than a filename may be.
pub proof fn law_an_alternative_is_one_plain_component_that_fits(name: Seq<char>, n: u32)
    requires
        one_component(name),
    ensures
        one_component(alternative(name, n)),
        byte_len(alternative(name, n)) <= NAME_BYTES,
{
    lemma_extension(name);
    lemma_suffix(n);
    let at = extension_at(name);
    let tail = extension(name);
    let mark = suffix(n);
    let room = NAME_BYTES - byte_len(mark) - byte_len(tail);
    lemma_components(name, at, name);
    lemma_cut(stem(name), room);
    let kept = cut_to(stem(name), room);
    lemma_components(stem(name), kept.len() as int, mark);
    lemma_components(kept, 0, mark);
    lemma_components(kept + mark, 0, tail);
    lemma_byte_len_concat(kept, mark);
    lemma_byte_len_concat(kept + mark, tail);
}

/// No two alternatives to a name are the same, so that each try is a new one.
pub proof fn law_alternatives_are_distinct(name: Seq<char>, n: u32, m: u32)
    requires
        alternative(name, n) == alternative(name, m),
    ensures
        n == m,
{
    lemma_alternatives_are_distinct(name, n, m);
    lemma_alternatives_are_distinct(name, m, n);
    lemma_decimal(n as nat);
    lemma_decimal(m as nat);
    let a = alternative(name, n);
    let b = alternative(name, m);
    let tail = extension(name);
    let x = decimal(n as nat);
    let y = decimal(m as nat);
    reveal_strlit(" (");
    reveal_strlit(")");
    let end = a.len() - tail.len() - 1;
    assert(x.len() == y.len());
    assert(a.subrange(end - x.len(), end) =~= x);
    assert(b.subrange(end - y.len(), end) =~= y);
}

/// The number of an alternative is no longer than that of an equal one.
proof fn lemma_alternatives_are_distinct(name: Seq<char>, n: u32, m: u32)
    requires
        alternative(name, n) == alternative(name, m),
    ensures
        decimal(n as nat).len() >= decimal(m as nat).len(),
{
    reveal_strlit(" (");
    reveal_strlit(")");
    lemma_decimal(m as nat);
    let a = alternative(name, n);
    let b = alternative(name, m);
    let tail = extension(name);
    let x = decimal(n as nat);
    let y = decimal(m as nat);
    if x.len() < y.len() {
        let at = a.len() - tail.len() - 1 - x.len() - 1;
        assert(a[at] == '(');
        let k = at - (b.len() - tail.len() - 1 - y.len());
        assert(b[at] == y[k]);
        assert(is_digit(y[k]));
    }
}

/// The row is plain text, whatever a page called its file and whatever the file
/// system said.
pub proof fn law_what_the_row_says_is_plain(shelf: Shelf, now: u64)
    ensures
        shelf.words(now) matches Some(words) ==> all_plain(words),
{
    let coming = only_coming(shelf.list);
    if coming.len() > 0 {
        let newest = coming.last();
        let words = progress(newest.name, newest.received, newest.total);
        crate::text::law_sanitized_is_plain(words);
        crate::text::law_sanitized_is_plain(
            words + ", "@ + decimal((coming.len() - 1) as nat) + " more"@,
        );
    } else {
        match shelf.notice {
            Some((words, _)) => {
                crate::text::law_sanitized_is_plain(words);
            },
            None => {},
        }
    }
}

/// What this run cancelled itself is nobody's news.
pub proof fn law_a_quit_is_no_news(shelf: Shelf, event: News, now: u64, done: Done)
    requires
        shelf.quitting,
        text_of(field(event.params, "state"@)) == Some("canceled"@),
    ensures
        shelf.taken(event, now, done).notice == shelf.notice,
{
    reveal_strlit("canceled");
    reveal_strlit("completed");
    assert("canceled"@.len() != "completed"@.len());
}

/// No guid stands twice in a list.
pub open spec fn tracked_once(list: Seq<Item>) -> bool {
    forall|i: int, j: int|
        0 <= i < j < list.len() ==> (#[trigger] list[i]).guid != (#[trigger] list[j]).guid
}

/// Where [`place_of`] points has that guid, and none before it has.
proof fn lemma_place_holds(list: Seq<Item>, guid: Seq<char>, coming: bool)
    ensures
        0 <= place_of(list, guid, coming) <= list.len(),
        place_of(list, guid, coming) < list.len() ==> list[place_of(list, guid, coming)].guid
            == guid && (coming ==> list[place_of(list, guid, coming)].state == Fate::Coming),
        !coming && place_of(list, guid, coming) == list.len() ==> forall|j: int|
            0 <= j < list.len() ==> (#[trigger] list[j]).guid != guid,
    decreases list.len(),
{
    if list.len() > 0 && !(list[0].guid == guid && (coming ==> list[0].state == Fate::Coming)) {
        let rest = list.drop_first();
        lemma_place_holds(rest, guid, coming);
        if !coming && place_of(list, guid, coming) == list.len() {
            assert forall|j: int| 0 <= j < list.len() implies (#[trigger] list[j]).guid != guid by {
                if j > 0 {
                    assert(list[j] == rest[j - 1]);
                }
            }
        }
    }
}

/// A download is tracked once, however often it is announced.
pub proof fn law_a_download_is_tracked_once(shelf: Shelf, event: News, now: u64, done: Done)
    requires
        tracked_once(shelf.list),
    ensures
        tracked_once(shelf.taken(event, now, done).list),
{
    match guid_in(event.params) {
        Some(guid) => {
            lemma_place_holds(shelf.list, guid, false);
            lemma_place_holds(shelf.list, guid, true);
            let after = shelf.taken(event, now, done).list;
            assert forall|i: int, j: int| 0 <= i < j < after.len() implies (#[trigger]
            after[i]).guid != (#[trigger] after[j]).guid by {
                if j < shelf.list.len() {
                    assert(after[i].guid == shelf.list[i].guid);
                    assert(after[j].guid == shelf.list[j].guid);
                } else {
                    assert(after[i] == shelf.list[i]);
                }
            }
        },
        None => {},
    }
}

/// `100%` means that it has all arrived.
pub proof fn law_all_of_it_is_a_hundred(received: u64, total: u64)
    requires
        total > 0,
    ensures
        percent(received, total) == 100 <==> received >= total,
        percent(received, total) <= 100,
{
    let r = received as nat;
    let t = total as nat;
    let p = r * 100 / t;
    assert(p >= 100 <==> r >= t) by (nonlinear_arith)
        requires
            t > 0,
            p == r * 100 / t,
    ;
}

/// An event that is of no download changes nothing, says nothing on the row and
/// asks nothing of the file system: one that names no real guid, one that is not
/// of downloads, one that announces a download again, and one that is of a
/// download which is not on its way.
pub proof fn law_a_strange_event_changes_nothing(shelf: Shelf, event: News, now: u64, done: Done)
    requires
        match guid_in(event.params) {
            None => true,
            Some(guid) => if event.method == "Browser.downloadWillBegin"@ {
                exists|i: int| 0 <= i < shelf.list.len() && (#[trigger] shelf.list[i]).guid == guid
            } else if event.method == "Browser.downloadProgress"@ {
                forall|i: int|
                    0 <= i < shelf.list.len() && (#[trigger] shelf.list[i]).guid == guid
                        ==> shelf.list[i].state != Fate::Coming
            } else {
                true
            },
        },
    ensures
        shelf.taken(event, now, done) == shelf,
        shelf.taken(event, now, done).words(now) == shelf.words(now),
        shelf.task(event) is Nothing,
{
    match guid_in(event.params) {
        Some(guid) => {
            lemma_place_holds(shelf.list, guid, false);
            lemma_place_holds(shelf.list, guid, true);
        },
        None => {},
    }
}

/// An event that begins a download this run has not in its list.
pub open spec fn begins(shelf: Shelf, event: News, guid: Seq<char>) -> bool {
    event.method == "Browser.downloadWillBegin"@ && guid_in(event.params) == Some(guid) && forall|
        i: int,
    |
        0 <= i < shelf.list.len() ==> (#[trigger] shelf.list[i]).guid != guid
}

/// An event, and what came of its work, that put a download on its way in its
/// place.
pub open spec fn saves(shelf: Shelf, event: News, done: Done, guid: Seq<char>) -> bool {
    &&& event.method == "Browser.downloadProgress"@
    &&& guid_in(event.params) == Some(guid)
    &&& text_of(field(event.params, "state"@)) == Some("completed"@)
    &&& exists|i: int|
        0 <= i < shelf.list.len() && (#[trigger] shelf.list[i]).guid == guid
            && shelf.list[i].state == Fate::Coming
    &&& done matches Done::Kept(Ok(_))
}

/// The partial files are those of the downloads that this run saw begin and not
/// save, and of no others: a download is among them from the event that begins
/// it to the one that saves it.
pub proof fn law_partials_are_what_began_and_was_not_saved(
    shelf: Shelf,
    event: News,
    now: u64,
    done: Done,
    guid: Seq<char>,
)
    requires
        shelf.valid(),
    ensures
        shelf.taken(event, now, done).unsaved.contains(guid) <==> (shelf.unsaved.contains(guid)
            || begins(shelf, event, guid)) && !saves(shelf, event, done, guid),
{
    reveal_strlit("Browser.downloadWillBegin");
    reveal_strlit("Browser.downloadProgress");
    assert("Browser.downloadWillBegin"@.len() != "Browser.downloadProgress"@.len());
    match guid_in(event.params) {
        Some(named) => {
            lemma_place_holds(shelf.list, named, false);
            lemma_place_holds(shelf.list, named, true);
            lemma_including(shelf.unsaved, named);
            lemma_excluding(shelf.unsaved, named);
            let i = place_of(shelf.list, named, true);
            if i < shelf.list.len() {
                assert(shelf.list[i].guid == named && shelf.list[i].state == Fate::Coming);
            } else {
                lemma_not_coming(shelf.list, named);
            }
            if place_of(shelf.list, named, false) < shelf.list.len() {
                let j = place_of(shelf.list, named, false);
                assert(shelf.list[j].guid == named);
            }
        },
        None => {},
    }
}

/// A guid that is nowhere on its way is of no download on its way.
proof fn lemma_not_coming(list: Seq<Item>, guid: Seq<char>)
    requires
        place_of(list, guid, true) >= list.len(),
    ensures
        forall|i: int|
            0 <= i < list.len() && (#[trigger] list[i]).guid == guid ==> list[i].state
                != Fate::Coming,
    decreases list.len(),
{
    if list.len() > 0 {
        let rest = list.drop_first();
        lemma_not_coming(rest, guid);
        assert forall|i: int| 0 <= i < list.len() && (#[trigger] list[i]).guid
            == guid implies list[i].state != Fate::Coming by {
            if i > 0 {
                assert(rest[i - 1] == list[i]);
            }
        }
    }
}

/// A notice that goes takes no partial file with it: what was not saved is
/// there to be removed for as long as the program runs.
pub proof fn law_expiring_keeps_the_partials(shelf: Shelf, now: u64)
    ensures
        shelf.expired(now).unsaved == shelf.unsaved,
        shelf.expired(now).partials() == shelf.partials(),
{
    assert(shelf.expired(now).partials() =~= shelf.partials());
}

/// Every download in the list that is not saved has its partial file among those
/// to be removed.
pub proof fn law_what_is_not_saved_has_a_partial(shelf: Shelf, i: int)
    requires
        shelf.valid(),
        0 <= i < shelf.list.len(),
    ensures
        !(shelf.list[i].state is Saved) ==> shelf.partials().contains(
            joined(shelf.dir, shelf.list[i].guid + PARTIAL_SUFFIX@),
        ),
{
    if !(shelf.list[i].state is Saved) {
        let guid = shelf.list[i].guid;
        assert(shelf.unsaved.contains(guid));
        let k = choose|k: int| 0 <= k < shelf.unsaved.len() && shelf.unsaved[k] == guid;
        assert(shelf.partials()[k] == joined(shelf.dir, guid + PARTIAL_SUFFIX@));
    }
}

/// Once the engine is gone nothing is on its way.
proof fn lemma_none_coming(list: Seq<Item>)
    requires
        forall|i: int| 0 <= i < list.len() ==> (#[trigger] list[i]).state != Fate::Coming,
    ensures
        only_coming(list).len() == 0,
    decreases list.len(),
{
    if list.len() > 0 {
        assert(list[list.len() - 1].state != Fate::Coming);
        assert forall|i: int| 0 <= i < list.drop_last().len() implies (
        #[trigger] list.drop_last()[i]).state != Fate::Coming by {
            assert(list[i].state != Fate::Coming);
        }
        lemma_none_coming(list.drop_last());
    }
}

/// When nothing is on its way nothing is to be ended.
proof fn lemma_all_ended(list: Seq<Item>)
    requires
        only_coming(list).len() == 0,
    ensures
        forall|i: int| 0 <= i < list.len() ==> (#[trigger] list[i]).state != Fate::Coming,
        all_dead(list) == list,
    decreases list.len(),
{
    if list.len() > 0 {
        let front = list.drop_last();
        lemma_all_ended(front);
        assert forall|i: int| 0 <= i < list.len() implies (#[trigger] list[i]).state
            != Fate::Coming by {
            if i < front.len() {
                assert(front[i].state != Fate::Coming);
            }
        }
    }
    assert(all_dead(list) =~= list);
}

/// A front of plain text is plain.
proof fn lemma_clipped_is_plain(s: Seq<char>, room: int)
    requires
        all_plain(s),
    ensures
        all_plain(clipped(s, room)),
    decreases s.len(),
{
    if s.len() > 0 && crate::screen::cells(s[0]) <= room {
        let rest = s.drop_first();
        assert forall|i: int| 0 <= i < rest.len() implies plain(#[trigger] rest[i]) by {
            assert(plain(s[i + 1]));
        }
        lemma_clipped_is_plain(rest, room - crate::screen::cells(s[0]));
        assert(plain(s[0]));
        lemma_joined_is_plain(seq![s[0]], clipped(rest, room - crate::screen::cells(s[0])));
    }
}

/// A text that starts with a plain character starts with it when it is
/// sanitized.
proof fn lemma_sanitized_starts(s: Seq<char>)
    requires
        s.len() > 0,
        plain(s[0]),
    ensures
        sanitized(s).len() > 0,
        sanitized(s)[0] == s[0],
    decreases s.len(),
{
    if s.len() > 1 {
        lemma_sanitized_starts(s.drop_last());
    } else {
        assert(sanitized(s.drop_last()).len() == 0);
    }
}

/// When the engine dies every download on its way has failed for that reason,
/// and the newest of them is what the row says; the others, their names, their
/// order and the partial files are as they were. When none was on its way
/// nothing changes, and so a second death says nothing.
pub proof fn law_a_dead_engine_ends_every_download(shelf: Shelf, now: u64, later: u64)
    requires
        shelf.valid(),
        now <= u64::MAX - NOTICE_FOR,
    ensures
        ({
            let after = shelf.orphaned(now);
            let coming = only_coming(shelf.list);
            &&& after.list.len() == shelf.list.len()
            &&& forall|i: int|
                0 <= i < shelf.list.len() ==> #[trigger] after.list[i] == (if shelf.list[i].state
                    == Fate::Coming {
                    Item { state: Fate::Failed(Some("the engine died"@)), ..shelf.list[i] }
                } else {
                    shelf.list[i]
                })
            &&& only_coming(after.list).len() == 0
            &&& after.partials() == shelf.partials()
            &&& coming.len() == 0 ==> after == shelf
            &&& coming.len() > 0 ==> {
                &&& after.words(now) == Some(
                    lost(coming.last().name, Some("the engine died"@)),
                )
                &&& after.notice matches Some((_, until)) && until == now + NOTICE_FOR
                &&& after.words(now) != shelf.words(now)
            }
            &&& after.orphaned(later) == after
            &&& after.orphaned(later).words(later) == after.words(later)
        }),
{
    let after = shelf.orphaned(now);
    let coming = only_coming(shelf.list);
    assert(after.list == all_dead(shelf.list));
    lemma_none_coming(after.list);
    lemma_all_ended(after.list);
    assert(after.orphaned(later) =~= after);
    assert(after.partials() =~= shelf.partials());
    if coming.len() == 0 {
        lemma_all_ended(shelf.list);
        assert(after =~= shelf);
    } else {
        let newest = coming.last();
        lemma_coming_are_tracked(shelf.list, shelf.unsaved);
        assert(all_plain(coming[coming.len() - 1].name));
        let words = lost(newest.name, Some("the engine died"@));
        reveal_strlit("couldn't save ");
        reveal_strlit(": ");
        reveal_strlit("the engine died");
        reveal_strlit("downloading ");
        lemma_clipped_is_plain(newest.name, NAME_CELLS as int);
        let name = clipped(newest.name, NAME_CELLS as int);
        lemma_joined_is_plain("couldn't save "@, name);
        lemma_joined_is_plain(": "@, "the engine died"@);
        lemma_joined_is_plain("couldn't save "@ + name, ": "@ + "the engine died"@);
        assert(words =~= "couldn't save "@ + name + (": "@ + "the engine died"@));
        crate::text::law_plain_text_is_left_alone(words);
        assert(words[0] == 'c');
        let said = progress(newest.name, newest.received, newest.total);
        assert(said[0] == 'd');
        let more = said + ", "@ + decimal((coming.len() - 1) as nat) + " more"@;
        assert(more[0] == 'd');
        lemma_sanitized_starts(said);
        lemma_sanitized_starts(more);
    }
}

/// What stands after the last separator is no longer than the whole.
proof fn lemma_parts_are_shorter(s: Seq<char>)
    ensures
        byte_len(tail_part(s)) <= byte_len(s),
        byte_len(last_part(s)) <= byte_len(s),
    decreases s.len(),
{
    if s.len() > 0 {
        lemma_parts_are_shorter(s.drop_last());
        assert(tail_part(s.drop_last()).push(s.last()).drop_last() =~= tail_part(s.drop_last()));
    }
}

/// A control and a bidi control take no fewer bytes than the `_` that stands for
/// them.
proof fn lemma_cleaned_is_shorter(s: Seq<char>)
    ensures
        byte_len(cleaned(s)) <= byte_len(s),
    decreases s.len(),
{
    if s.len() > 0 {
        let before = cleaned(s.drop_last());
        lemma_cleaned_is_shorter(s.drop_last());
        assert(before.push('_').drop_last() =~= before);
        assert(before.push(s.last()).drop_last() =~= before);
    }
}

/// What stripping leaves is no longer than the text.
proof fn lemma_strip_is_shorter(s: Seq<char>, edge: Edge)
    ensures
        byte_len(strip_start(s, edge)) <= byte_len(s),
        byte_len(strip_end(s, edge)) <= byte_len(s),
    decreases s.len(),
{
    if s.len() > 0 {
        let rest = s.drop_first();
        lemma_strip_is_shorter(rest, edge);
        lemma_strip_is_shorter(s.drop_last(), edge);
        lemma_byte_len_concat(seq![s[0]], rest);
        assert(seq![s[0]] + rest =~= s);
    }
}

/// A plain component is cleaned already.
proof fn lemma_plain_is_clean(s: Seq<char>)
    requires
        one_component(s),
    ensures
        cleaned(s) == s,
        tail_part(s) == s,
        s.len() > 0 ==> last_part(s) == s,
    decreases s.len(),
{
    if s.len() > 0 {
        lemma_components(s, s.len() - 1, s);
        assert(s.take(s.len() - 1) =~= s.drop_last());
        lemma_plain_is_clean(s.drop_last());
        assert(plain(s[s.len() - 1]) && !is_separator(s[s.len() - 1]));
        assert(s.drop_last().push(s.last()) =~= s);
    } else {
        assert(cleaned(s) =~= s);
        assert(tail_part(s) =~= s);
    }
}

/// A name that did not have to be cut ends in neither a dot nor white space, and
/// is safe as it is: what is made safe again is unchanged.
pub proof fn law_a_safe_name_is_safe(suggested: Seq<char>)
    requires
        byte_len(suggested) <= NAME_BYTES,
    ensures
        safe(suggested).last() != '.',
        !is_space(safe(suggested).last()),
        safe(safe(suggested)) == safe(suggested),
{
    let part = last_part(suggested);
    let kept = cleaned(part);
    let name = strip(kept, Edge::Dots);
    lemma_strip(kept, Edge::Dots);
    lemma_parts_are_shorter(suggested);
    lemma_cleaned_is_shorter(part);
    lemma_strip_is_shorter(kept, Edge::Dots);
    lemma_strip_is_shorter(strip_start(kept, Edge::Dots), Edge::Dots);
    assert(byte_len(name) <= NAME_BYTES);
    law_a_safe_name_is_one_plain_component(suggested);
    let safe_name = safe(suggested);
    reveal_strlit("download");
    assert(name.len() == 0 ==> safe_name == "download"@);
    assert(name.len() > 0 ==> safe_name == name);
    lemma_plain_is_clean(safe_name);
    lemma_strip_nothing(safe_name, Edge::Dots);
}

// ---- laws of names ----

/// The name that is tried after `taken` of them were, if any still is.
pub open spec fn tried(name: Seq<char>, taken: u32) -> Option<Seq<char>> {
    if taken == 0 {
        Some(name)
    } else if taken < COLLISIONS {
        Some(alternative(name, taken))
    } else {
        None
    }
}

/// The first name tried is the file's own, and a thousand are tried, no two of
/// them alike but for the first.
pub proof fn law_a_thousand_names_are_tried(name: Seq<char>, a: u32, b: u32)
    ensures
        tried(name, 0) == Some(name),
        tried(name, a) is Some <==> a < 1000,
        0 < a < b < 1000 ==> tried(name, a) != tried(name, b),
{
    if 0 < a < b < 1000 && alternative(name, a) == alternative(name, b) {
        law_alternatives_are_distinct(name, a, b);
    }
}

/// A name that is one already is kept as it is, and of a path only the last part
/// is the name.
pub proof fn law_a_good_name_is_kept(dir: Seq<char>, name: Seq<char>, sep: char)
    requires
        one_component(name),
        name.len() > 0,
        name[0] != '.' && name.last() != '.',
        !is_space(name[0]) && !is_space(name.last()),
        byte_len(name) <= 255,
        sep == '/' || sep == '\\',
    ensures
        safe(name) == name,
        safe(dir + seq![sep] + name) == name,
{
    lemma_plain_is_clean(name);
    lemma_strip_nothing(name, Edge::Dots);
    lemma_tail_behind(dir + seq![sep], name);
    let all = dir + seq![sep] + name;
    assert(all.last() == name.last());
    assert(!is_separator(name[name.len() - 1]));
}

proof fn lemma_tail_behind(front: Seq<char>, name: Seq<char>)
    requires
        front.len() > 0 && is_separator(front.last()),
        forall|i: int| 0 <= i < name.len() ==> !is_separator(#[trigger] name[i]),
    ensures
        tail_part(front + name) == name,
    decreases name.len(),
{
    let all = front + name;
    if name.len() == 0 {
        assert(all =~= front);
        assert(tail_part(all) =~= name);
    } else {
        assert(all.drop_last() =~= front + name.drop_last());
        assert forall|i: int| 0 <= i < name.drop_last().len() implies !is_separator(
            #[trigger] name.drop_last()[i],
        ) by {
            assert(name.drop_last()[i] == name[i]);
        }
        lemma_tail_behind(front, name.drop_last());
        assert(!is_separator(name[name.len() - 1]));
        assert(all.last() == name.last());
        assert(name.drop_last().push(name.last()) =~= name);
    }
}

/// A name is its stem and its extension, which is what stands from the last dot
/// on, when that is short and something stands before it.
pub proof fn law_a_name_is_its_stem_and_its_extension(base: Seq<char>, ext: Seq<char>)
    requires
        base.len() > 0,
        ext.len() > 0,
        !ext.contains('.'),
        byte_len(ext) <= 15,
        forall|i: int| 0 <= i < ext.len() ==> !is_space(#[trigger] ext[i]),
    ensures
        stem(base + seq!['.'] + ext) == base,
        extension(base + seq!['.'] + ext) == seq!['.'] + ext,
        stem(ext) == ext,
        extension(ext).len() == 0,
        stem(seq!['.'] + ext) == seq!['.'] + ext,
{
    let name = base + seq!['.'] + ext;
    let tail = seq!['.'] + ext;
    lemma_last_dot(base, ext);
    lemma_last_dot(Seq::empty(), ext);
    assert(Seq::<char>::empty() + seq!['.'] + ext =~= tail);
    lemma_no_last_dot(ext);
    assert(name.skip(base.len() as int) =~= tail);
    lemma_byte_len_concat(seq!['.'], ext);
    assert(seq!['.'].drop_last() =~= Seq::<char>::empty());
    assert(byte_len(seq!['.'].drop_last()) == 0);
    assert(byte_len(seq!['.']) == 1);
    lemma_byte_len_bounds(ext);
    assert forall|i: int| 0 <= i < tail.len() implies !is_space(#[trigger] tail[i]) by {
        if i > 0 {
            assert(tail[i] == ext[i - 1]);
        }
    }
    assert(name.take(base.len() as int) =~= base);
    assert(ext.take(ext.len() as int) =~= ext);
    assert(tail.take(tail.len() as int) =~= tail);
}

proof fn lemma_last_dot(base: Seq<char>, ext: Seq<char>)
    requires
        !ext.contains('.'),
    ensures
        last_index_of(base + seq!['.'] + ext, '.') == base.len(),
    decreases ext.len(),
{
    let all = base + seq!['.'] + ext;
    if ext.len() == 0 {
        assert(all.last() == '.');
    } else {
        assert(all.last() == ext.last());
        assert(ext[ext.len() - 1] != '.');
        assert(all.drop_last() =~= base + seq!['.'] + ext.drop_last());
        assert(!ext.drop_last().contains('.')) by {
            if ext.drop_last().contains('.') {
                let i = choose|i: int| 0 <= i < ext.drop_last().len() && ext.drop_last()[i] == '.';
                assert(ext[i] == '.');
            }
        }
        lemma_last_dot(base, ext.drop_last());
    }
}

proof fn lemma_no_last_dot(ext: Seq<char>)
    requires
        !ext.contains('.'),
    ensures
        last_index_of(ext, '.') < 0,
    decreases ext.len(),
{
    if ext.len() > 0 {
        assert(ext[ext.len() - 1] != '.');
        assert(!ext.drop_last().contains('.')) by {
            if ext.drop_last().contains('.') {
                let i = choose|i: int| 0 <= i < ext.drop_last().len() && ext.drop_last()[i] == '.';
                assert(ext[i] == '.');
            }
        }
        lemma_no_last_dot(ext.drop_last());
    }
}

/// A number goes between the stem and the extension, which is kept; and a name
/// that is too long loses the end of its stem and nothing else.
pub proof fn law_a_number_goes_before_the_extension(name: Seq<char>, n: u32, room: int)
    requires
        byte_len(extension(name)) < room,
    ensures
        byte_len(stem(name)) + byte_len(suffix(n)) + byte_len(extension(name)) <= 255
            ==> alternative(name, n) == stem(name) + " ("@ + decimal(n as nat) + ")"@ + extension(
            name,
        ),
        fitted(name, room).len() >= extension(name).len(),
        fitted(name, room).skip(fitted(name, room).len() - extension(name).len()) == extension(
            name,
        ),
        byte_len(fitted(name, room)) <= room,
        byte_len(name) <= room ==> fitted(name, room) == name,
        byte_len(name) > room ==> ({
            let kept = fitted(name, room).len() - extension(name).len();
            &&& 0 <= kept < stem(name).len()
            &&& fitted(name, room).take(kept) == name.take(kept)
            &&& byte_len(stem(name).take(kept + 1)) + byte_len(extension(name)) > room
        }),
{
    lemma_extension(name);
    lemma_byte_len_concat(stem(name), extension(name));
    let left = room - byte_len(extension(name));
    lemma_cut(stem(name), left);
    let front = cut_to(stem(name), left);
    lemma_byte_len_concat(front, extension(name));
    if byte_len(name) > room {
        let kept = front.len() as int;
        assert(fitted(name, room).skip(kept) =~= extension(name));
        assert(fitted(name, room).take(kept) =~= front);
        assert(name.take(kept) =~= stem(name).take(kept));
        if kept == stem(name).len() {
            assert(front =~= stem(name));
        }
    } else {
        assert(name.skip(name.len() - extension(name).len()) =~= extension(name));
    }
    let space = 255 - byte_len(suffix(n)) - byte_len(extension(name));
    if byte_len(stem(name)) <= space {
        assert(cut_to(stem(name), space) == stem(name));
        assert(stem(name) + suffix(n) + extension(name) =~= stem(name) + " ("@ + decimal(
            n as nat,
        ) + ")"@ + extension(name));
    }
}

// ---- laws of what is told ----

/// How much there is of a download is the hundredths of it that are there, and
/// no more than that.
pub proof fn law_a_percent_is_of_the_whole(received: u64, total: u64)
    requires
        0 < total,
        received < total,
    ensures
        percent(received, total) * total <= received * 100 < (percent(received, total) + 1) * total,
{
    let (a, b) = (received as nat * 100, total as nat);
    let q = a / b;
    assert(q * b <= a < (q + 1) * b) by (nonlinear_arith)
        requires
            q == a / b,
            b > 0,
    ;
    assert(q <= 100) by (nonlinear_arith)
        requires
            q * b <= a,
            a < b * 100,
            b > 0,
    ;
}

/// What a row says of a download: its name, and how far it is, in hundredths when
/// its size is known and in bytes when it is not.
pub proof fn law_a_download_is_told_by_its_name_and_how_far_it_is(
    name: Seq<char>,
    received: u64,
    total: u64,
)
    ensures
        total > 0 ==> progress(name, received, total) == "downloading "@ + clipped(name, 40) + " "@
            + (decimal(percent(received, total)) + "%"@),
        total == 0 ==> progress(name, received, total) == "downloading "@ + clipped(name, 40)
            + " "@ + size_words(received as nat),
{
}

/// A download that the engine begins is listed last, by a name that is safe, with
/// nothing of it there yet, and it is one more that is not saved.
pub proof fn law_a_download_begins(
    shelf: Shelf,
    guid: Seq<char>,
    suggested: Seq<char>,
    now: u64,
    done: Done,
)
    requires
        guid_like(guid),
        forall|i: int| 0 <= i < shelf.list.len() ==> (#[trigger] shelf.list[i]).guid != guid,
    ensures
        ({
            let event = News {
                method: "Browser.downloadWillBegin"@,
                params: Value::Record(
                    seq![
                        ("guid"@, Value::Text(guid)),
                        ("suggestedFilename"@, Value::Text(suggested)),
                    ],
                ),
            };
            let after = shelf.taken(event, now, done);
            &&& after.list.drop_last() == shelf.list
            &&& after.list.last() == Item {
                guid,
                name: safe(suggested),
                received: 0,
                total: 0,
                state: Fate::Coming,
                began: now,
            }
            &&& after.unsaved.contains(guid)
            &&& after.notice == shelf.notice
            &&& shelf.task(event) is MakeDir <==> shelf.ready is None
        }),
{
    let fields = seq![("guid"@, Value::Text(guid)), ("suggestedFilename"@, Value::Text(suggested))];
    reveal_strlit("guid");
    reveal_strlit("suggestedFilename");
    assert("guid"@.len() == 4);
    assert("suggestedFilename"@.len() == 17);
    assert(fields[0].0 == "guid"@ && fields[1].0 == "suggestedFilename"@);
    assert(named_once(fields));
    lemma_each_is_found(fields);
    lemma_place_of(shelf.list, guid, false, shelf.list.len() as int);
    let event = News { method: "Browser.downloadWillBegin"@, params: Value::Record(fields) };
    let after = shelf.taken(event, now, done);
    assert(after.list.drop_last() =~= shelf.list);
    if !shelf.unsaved.contains(guid) {
        assert(after.unsaved[shelf.unsaved.len() as int] == guid);
    }
}

/// A download goes as the engine says: what has come is counted, one that is all
/// there is saved where it was put, and one that could not be put or was called
/// off has failed; the news is told for eight seconds, and nothing else about
/// what is listed changes.
pub proof fn law_a_download_goes_as_the_engine_says(
    shelf: Shelf,
    i: int,
    state: Seq<char>,
    path: String,
    why: String,
    now: u64,
)
    requires
        0 <= i < shelf.list.len(),
        guid_like(shelf.list[i].guid),
        shelf.list[i].state == Fate::Coming,
        forall|k: int, m: int|
            0 <= k < m < shelf.list.len() ==> (#[trigger] shelf.list[k]).guid != (
            #[trigger] shelf.list[m]).guid,
        now <= u64::MAX - 8_000_000_000,
    ensures
        ({
            let item = shelf.list[i];
            let event = |state: Seq<char>|
                News {
                    method: "Browser.downloadProgress"@,
                    params: Value::Record(
                        seq![
                            ("guid"@, Value::Text(item.guid)),
                            ("state"@, Value::Text(state)),
                        ],
                    ),
                };
            let until = (now + 8_000_000_000) as u64;
            let saved = shelf.taken(event("completed"@), now, Done::Kept(Ok(path)));
            let lost_it = shelf.taken(event("completed"@), now, Done::Kept(Err(why)));
            let off = shelf.taken(event("canceled"@), now, Done::Nothing);
            let on = shelf.taken(event("inProgress"@), now, Done::Nothing);
            &&& saved.list == shelf.list.update(i, Item { state: Fate::Saved(path@), ..item })
            &&& saved.notice == Some(
                ("saved "@ + saved_words(path@, shelf.dir, shelf.home), until),
            )
            &&& !saved.unsaved.contains(item.guid)
            &&& lost_it.list == shelf.list.update(
                i,
                Item { state: Fate::Failed(Some(why@)), ..item },
            )
            &&& lost_it.notice == Some((lost(item.name, Some(why@)), until))
            &&& lost_it.unsaved == shelf.unsaved
            &&& off.list.len() == shelf.list.len() && off.list[i].state is Failed
                && off.list[i].guid == item.guid
            &&& !shelf.quitting ==> off.notice is Some
            &&& on == shelf
            &&& shelf.task(event("completed"@)) == Task::Keep { guid: item.guid, name: item.name }
            &&& shelf.task(event("canceled"@)) is Nothing
        }),
{
    let item = shelf.list[i];
    lemma_place_of(shelf.list, item.guid, true, i);
    reveal_strlit("guid");
    reveal_strlit("state");
    reveal_strlit("receivedBytes");
    reveal_strlit("totalBytes");
    assert("guid"@.len() == 4);
    assert("state"@.len() == 5);
    assert("receivedBytes"@.len() == 13);
    assert("totalBytes"@.len() == 10);
    reveal_strlit("completed");
    reveal_strlit("canceled");
    reveal_strlit("inProgress");
    assert("completed"@.len() == 9);
    assert("canceled"@.len() == 8);
    assert("inProgress"@.len() == 10);
    reveal_strlit("Browser.downloadProgress");
    reveal_strlit("Browser.downloadWillBegin");
    assert("Browser.downloadProgress"@.len() == 24);
    assert("Browser.downloadWillBegin"@.len() == 25);
    lemma_excluding(shelf.unsaved, item.guid);
    lemma_progress_says(item.guid, "completed"@);
    lemma_progress_says(item.guid, "canceled"@);
    lemma_progress_says(item.guid, "inProgress"@);
    let fields = |said: Seq<char>|
        seq![("guid"@, Value::Text(item.guid)), ("state"@, Value::Text(said))];
    assert(shelf.list.update(i, item) =~= shelf.list);
    assert(counted(item, Value::Record(fields("inProgress"@))) == item);
}

proof fn lemma_progress_says(guid: Seq<char>, said: Seq<char>)
    ensures
        ({
            let fields = seq![("guid"@, Value::Text(guid)), ("state"@, Value::Text(said))];
            &&& lookup(fields, "guid"@) == Some(Value::Text(guid))
            &&& lookup(fields, "state"@) == Some(Value::Text(said))
            &&& lookup(fields, "receivedBytes"@) is None
            &&& lookup(fields, "totalBytes"@) is None
        }),
{
    let fields = seq![("guid"@, Value::Text(guid)), ("state"@, Value::Text(said))];
    reveal_strlit("guid");
    reveal_strlit("state");
    reveal_strlit("receivedBytes");
    reveal_strlit("totalBytes");
    assert("guid"@.len() == 4 && "state"@.len() == 5);
    assert("receivedBytes"@.len() == 13 && "totalBytes"@.len() == 10);
    assert(fields[0].0 == "guid"@ && fields[1].0 == "state"@);
    assert(named_once(fields));
    lemma_each_is_found(fields);
    lemma_none_is_found(fields, "receivedBytes"@);
    lemma_none_is_found(fields, "totalBytes"@);
}

/// What is coming is told by the newest of it, with how many more there are; when
/// nothing is, what came last is, for as long as it is news.
pub proof fn law_the_newest_download_is_told(shelf: Shelf, now: u64)
    ensures
        ({
            let coming = only_coming(shelf.list);
            let newest = coming.last();
            let said = progress(newest.name, newest.received, newest.total);
            &&& coming.len() == 1 ==> shelf.words(now) == Some(sanitized(said))
            &&& coming.len() > 1 ==> shelf.words(now) == Some(
                sanitized(said + ", "@ + decimal((coming.len() - 1) as nat) + " more"@),
            )
            &&& coming.len() == 0 ==> shelf.words(now) == match shelf.notice {
                Some((words, until)) => if now < until {
                    Some(sanitized(words))
                } else {
                    None
                },
                None => None,
            }
        }),
        shelf.notice matches Some((_, until)) && now < until ==> shelf.expired(now) == shelf,
        shelf.notice matches Some((_, until)) && now >= until ==> shelf.expired(now).notice is None,
{
}

/// What is coming is what the list has that is, in its order.
pub proof fn law_what_is_coming_is_in_order(a: Seq<Item>, b: Seq<Item>, item: Item)
    ensures
        only_coming(a + b) == only_coming(a) + only_coming(b),
        only_coming(seq![item]) == if item.state == Fate::Coming {
            seq![item]
        } else {
            Seq::empty()
        },
    decreases b.len(),
{
    assert(seq![item].drop_last() =~= Seq::<Item>::empty());
    assert(only_coming(seq![item].drop_last()) =~= Seq::<Item>::empty());
    assert(Seq::<Item>::empty().push(item) =~= seq![item]);
    if b.len() == 0 {
        assert(a + b =~= a);
        assert(only_coming(a) + only_coming(b) =~= only_coming(a));
    } else {
        law_what_is_coming_is_in_order(a, b.drop_last(), item);
        assert((a + b).drop_last() =~= a + b.drop_last());
        assert(only_coming(a + b) =~= only_coming(a) + only_coming(b));
    }
}

// ---- laws of where files go ----

/// Where files go: where the environment says, if that is a place; else where the
/// person's own settings say; else into Downloads in the home directory; and
/// nowhere without one.
pub proof fn law_files_go_where_they_are_told(
    env: Seq<char>,
    said: Option<Seq<char>>,
    home: Seq<char>,
)
    requires
        home.len() > 0 && home[0] == '/',
    ensures
        env.len() > 0 && env[0] == '/' ==> resolved(Some(env), said, Some(home)) == Some(env),
        resolved(None, None, Some(home)) == Some(joined(home, "Downloads"@)),
        env.len() == 0 || env[0] != '/' ==> resolved(Some(env), None, Some(home)) == Some(
            joined(home, "Downloads"@),
        ),
        resolved(None, None, None) is None,
        said matches Some(contents) ==> (user_dir_of(contents, "XDG_DOWNLOAD_DIR"@, Some(home))
            matches Some(dir) ==> resolved(None, said, Some(home)) == Some(dir)),
{
}

/// A setting names a directory in quotes, from the root or under the home
/// directory, and no other way.
pub proof fn law_a_setting_names_a_directory(key: Seq<char>, path: Seq<char>, home: Seq<char>)
    requires
        key.len() > 0,
        !is_space(key[0]),
        path.len() > 0 && path[0] != '/' && path[0] != '$',
    ensures
        line_path(key + "=\""@ + (seq!['/'] + path) + "\""@, key, Some(home)) == Some(
            seq!['/'] + path,
        ),
        line_path(key + "=\""@ + ("$HOME/"@ + path) + "\""@, key, Some(home)) == Some(
            joined(home, path),
        ),
        line_path(key + "=\""@ + path + "\""@, key, Some(home)) is None,
{
    lemma_quoted(key, seq!['/'] + path);
    lemma_quoted(key, "$HOME/"@ + path);
    lemma_quoted(key, path);
    reveal_strlit("$HOME/");
    reveal_strlit("$HOME");
    let a = seq!['/'] + path;
    assert(!starts(a, "$HOME"@)) by {
        if starts(a, "$HOME"@) {
            assert(a.subrange(0, 5)[0] == '/');
        }
    }
    let b = "$HOME/"@ + path;
    assert(b.subrange(0, 5) =~= "$HOME"@);
    assert(b.skip(5) =~= seq!['/'] + path);
    assert((seq!['/'] + path).drop_first() =~= path);
    assert(unrooted(path) == path);
    assert(unrooted(seq!['/'] + path) == path);
    assert(!starts(path, "$HOME"@)) by {
        if starts(path, "$HOME"@) {
            assert(path.subrange(0, 5)[0] == path[0]);
        }
    }
}

proof fn lemma_quoted(key: Seq<char>, value: Seq<char>)
    requires
        key.len() > 0,
        !is_space(key[0]),
    ensures
        quoted_value(key + "=\""@ + value + "\""@, key) == Some(value),
{
    let line = key + "=\""@ + value + "\""@;
    reveal_strlit("=\"");
    reveal_strlit("\"");
    assert(line[0] == key[0]);
    assert(line.last() == '"');
    assert(trim(line) == line);
    let n = key.len() as int;
    assert(line.subrange(0, n + 2) =~= key + "=\""@);
    assert(line.subrange(n + 2, line.len() - 1) =~= value);
}

/// What is left of a file that is not all there lies beside it, under the
/// engine's own name for it.
pub proof fn law_a_partial_is_under_the_engines_name(shelf: Shelf, i: int)
    requires
        0 <= i < shelf.unsaved.len(),
    ensures
        shelf.partials().len() == shelf.unsaved.len(),
        shelf.partials()[i] == joined(shelf.dir, shelf.unsaved[i] + ".crdownload"@),
{
}

/// What the engine is told of where files go.
pub open spec fn enabling(dir: Seq<char>) -> Value {
    Value::Record(
        seq![
            ("behavior"@, Value::Text("allowAndName"@)),
            ("downloadPath"@, Value::Text(dir)),
            ("eventsEnabled"@, Value::Bool(true)),
        ],
    )
}

/// What the engine is told of a download that is called off.
pub open spec fn cancelling(guid: Seq<char>) -> Value {
    Value::Record(seq![("guid"@, Value::Text(guid))])
}

/// The engine saves files where it is told, under names of its own, and says what
/// becomes of them; one is called off by its name.
pub proof fn law_the_engine_saves_where_it_is_told(dir: Seq<char>, guid: Seq<char>)
    ensures
        text_of(field(enabling(dir), "downloadPath"@)) == Some(dir),
        text_of(field(enabling(dir), "behavior"@)) == Some("allowAndName"@),
        bool_of(field(enabling(dir), "eventsEnabled"@)) == Some(true),
        text_of(field(cancelling(guid), "guid"@)) == Some(guid),
{
    let a = enabling(dir)->Record_0;
    let b = cancelling(guid)->Record_0;
    reveal_strlit("behavior");
    reveal_strlit("downloadPath");
    reveal_strlit("eventsEnabled");
    assert("behavior"@.len() == 8);
    assert("downloadPath"@.len() == 12);
    assert("eventsEnabled"@.len() == 13);
    assert(a[0].0 == "behavior"@ && a[1].0 == "downloadPath"@ && a[2].0 == "eventsEnabled"@);
    assert(b[0].0 == "guid"@);
    assert(named_once(a));
    lemma_each_is_found(a);
    lemma_each_is_found(b);
}

/// What is cleaned of a name is character by character: what can be shown stays,
/// what would act is an underscore, and what cannot be seen goes.
pub proof fn law_a_name_is_cleaned_character_by_character(a: Seq<char>, b: Seq<char>, c: char)
    ensures
        cleaned(a + b) == cleaned(a) + cleaned(b),
        plain(c) ==> cleaned(seq![c]) == seq![c],
        is_control(c) || is_bidi(c) ==> cleaned(seq![c]) == seq!['_'],
        !plain(c) && !is_control(c) && !is_bidi(c) ==> cleaned(seq![c]).len() == 0,
    decreases b.len(),
{
    assert(seq![c].drop_last() =~= Seq::<char>::empty());
    assert(cleaned(seq![c].drop_last()) =~= Seq::<char>::empty());
    assert(seq![c].last() == c);
    assert(Seq::<char>::empty().push(c) =~= seq![c]);
    assert(Seq::<char>::empty().push('_') =~= seq!['_']);
    if b.len() == 0 {
        assert(a + b =~= a);
        assert(cleaned(a) + cleaned(b) =~= cleaned(a));
    } else {
        law_a_name_is_cleaned_character_by_character(a, b.drop_last(), c);
        assert((a + b).drop_last() =~= a + b.drop_last());
        assert((a + b).last() == b.last());
        assert(cleaned(a + b) =~= cleaned(a) + cleaned(b));
    }
}

}
