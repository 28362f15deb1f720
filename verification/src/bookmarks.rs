//! The pages kept, in a file a person can edit.
//!
//! One bookmark a line: a url, and perhaps a tab and a title. Everything else
//! in the file, a comment or a blank line or a mistake, is kept as it is: a
//! change to one bookmark leaves every other line byte for byte.
//!
//! A change is made to what the file says now, read again under a lock, and
//! not to what this run last saw, so two runs do not lose each other's
//! bookmarks. [`Bookmarks::toggle`] takes that text and says what is to be
//! written.
use vstd::prelude::*;
use vstd::slice::slice_subrange;

use crate::history::{
    cut_short, has_space, key_chars, key_of, lemma_one_more_line, lemma_prefix_inside, prefix_chars,
    prefix_len, ranked, recordable, records_chars, strings, texts, tiers, whole_lines,
};
use crate::strings::{
    chars_of, index_of, is_space, is_space_char, lemma_index_of, lemma_index_of_is,
    lemma_strip_nothing, lemma_trim_end, lemma_trim_start, position, starts, starts_with, string_of,
    strip, strip_chars, trim, trim_chars, trim_end, trim_start, Edge,
};
use crate::text::{
    law_plain_text_is_left_alone, law_sanitized_is_plain, plain, sanitize_chars, sanitized,
};

verus! {

/// The file, beside the default profile.
pub const FILE: &'static str = "bookmarks";

/// The lock file beside it, never renamed over.
pub const LOCK: &'static str = "bookmarks.lock";

/// One page kept.
#[derive(Debug, PartialEq, Eq)]
pub struct Bookmark {
    pub url: String,
    /// Plain text, one line; may be empty.
    pub title: String,
}

/// What a [`Bookmark`] is.
#[verifier::ext_equal]
pub struct Kept {
    pub url: Seq<char>,
    pub title: Seq<char>,
}

impl View for Bookmark {
    type V = Kept;

    open spec fn view(&self) -> Kept {
        Kept { url: self.url@, title: self.title@ }
    }
}

/// One line of the file, as it is kept across rewrites.
#[derive(Debug, PartialEq, Eq)]
pub enum Item {
    /// A bookmark, and the line it was read from, which is what is written
    /// back.
    Mark { mark: Bookmark, line: String },
    /// A line that is not a bookmark, written back exactly as it was read.
    Other(String),
}

/// What an [`Item`] is: the line, and the bookmark it is when it is one.
#[verifier::ext_equal]
pub struct Row {
    pub line: Seq<char>,
    pub mark: Option<Kept>,
}

impl View for Item {
    type V = Row;

    open spec fn view(&self) -> Row {
        match self {
            Item::Mark { mark, line } => Row { line: line@, mark: Some(mark@) },
            Item::Other(line) => Row { line: line@, mark: None },
        }
    }
}

/// The rows that some items are.
pub open spec fn rows(items: Seq<Item>) -> Seq<Row> {
    items.map_values(|i: Item| i@)
}

/// The bookmark that a line is, when it is one.
pub open spec fn mark_of(line: Seq<char>) -> Option<Kept> {
    let tab = index_of(line, '\t');
    let url = strip(line.take(tab), Edge::Padding);
    let title = if tab < line.len() {
        line.skip(tab + 1)
    } else {
        Seq::empty()
    };
    if recordable(url) {
        Some(Kept { url, title: trim(sanitized(title)) })
    } else {
        None
    }
}

/// A line of the file as it is kept.
pub open spec fn row_of(line: Seq<char>) -> Row {
    Row { line, mark: mark_of(line) }
}

/// The lines of a file: a last one need not end in a newline.
pub open spec fn file_lines(file: Seq<char>) -> Seq<Seq<char>> {
    if cut_short(file).len() > 0 {
        whole_lines(file).push(cut_short(file))
    } else {
        whole_lines(file)
    }
}

/// What a file says.
pub open spec fn rows_of(file: Seq<char>) -> Seq<Row> {
    rows_for(file_lines(file))
}

/// Lines as they are kept.
pub open spec fn rows_for(lines: Seq<Seq<char>>) -> Seq<Row> {
    lines.map_values(|line: Seq<char>| row_of(line))
}

/// One more line is one more row.
proof fn lemma_rows_for_push(lines: Seq<Seq<char>>, line: Seq<char>)
    ensures
        rows_for(lines.push(line)) == rows_for(lines).push(row_of(line)),
{
    assert(rows_for(lines.push(line)) =~= rows_for(lines).push(row_of(line)));
}

/// The row is the bookmark of this url.
pub open spec fn keeps_url(row: Row, url: Seq<char>) -> bool {
    row.mark matches Some(m) && m.url == url
}

/// Some row is the bookmark of this url.
pub open spec fn has_url(rs: Seq<Row>, url: Seq<char>) -> bool {
    exists|i: int| 0 <= i < rs.len() && keeps_url(#[trigger] rs[i], url)
}

/// The rows that are not the bookmark of this url, as they were.
pub open spec fn rows_without(rs: Seq<Row>, url: Seq<char>) -> Seq<Row>
    decreases rs.len(),
{
    if rs.len() == 0 {
        rs
    } else {
        let before = rows_without(rs.drop_last(), url);
        if keeps_url(rs.last(), url) {
            before
        } else {
            before.push(rs.last())
        }
    }
}

/// A bookmark newly made, as a row.
pub open spec fn new_row(url: Seq<char>, title: Seq<char>) -> Row {
    let said = trim(sanitized(title));
    Row {
        line: if said.len() == 0 {
            url
        } else {
            url + seq!['\t'] + said
        },
        mark: Some(Kept { url, title: said }),
    }
}

/// The rows after a toggle: without the url if it was there, with it at the
/// end if it was not.
pub open spec fn toggled(rs: Seq<Row>, url: Seq<char>, title: Seq<char>) -> Seq<Row> {
    if has_url(rs, url) {
        rows_without(rs, url)
    } else {
        rs.push(new_row(url, title))
    }
}

/// Rows as a file, each ended by a newline.
pub open spec fn file_of(rs: Seq<Row>) -> Seq<char>
    decreases rs.len(),
{
    if rs.len() == 0 {
        Seq::empty()
    } else {
        file_of(rs.drop_last()) + rs.last().line.push('\n')
    }
}

/// The bookmarks among some rows, in order.
pub open spec fn marks_of(rs: Seq<Row>) -> Seq<Kept>
    decreases rs.len(),
{
    if rs.len() == 0 {
        Seq::empty()
    } else {
        let before = marks_of(rs.drop_last());
        match rs.last().mark {
            Some(m) => before.push(m),
            None => before,
        }
    }
}

/// Some of these is of this url.
pub open spec fn among(marks: Seq<Kept>, url: Seq<char>) -> bool {
    exists|i: int| 0 <= i < marks.len() && (#[trigger] marks[i]).url == url
}

/// Each url once, where its last bookmark is.
pub open spec fn last_ones(marks: Seq<Kept>) -> Seq<Kept>
    decreases marks.len(),
{
    if marks.len() == 0 {
        marks
    } else {
        let rest = marks.drop_first();
        if among(rest, marks[0].url) {
            last_ones(rest)
        } else {
            seq![marks[0]] + last_ones(rest)
        }
    }
}

/// Every bookmark, in file order, each url once.
pub open spec fn all_of(rs: Seq<Row>) -> Seq<Kept> {
    last_ones(marks_of(rs))
}

/// A bookmark whose key goes on from `wanted`.
pub open spec fn mark_goes_on(m: Kept, wanted: Seq<char>) -> bool {
    key_of(m.url).len() > wanted.len() && starts(key_of(m.url), wanted)
}

/// The last of some bookmarks that goes on from `wanted`.
pub open spec fn newest_of(marks: Seq<Kept>, wanted: Seq<char>) -> Option<Kept>
    decreases marks.len(),
{
    if marks.len() == 0 {
        None
    } else if mark_goes_on(marks.last(), wanted) {
        Some(marks.last())
    } else {
        newest_of(marks.drop_last(), wanted)
    }
}

/// The rest of a bookmark's url, to be offered after what was typed.
pub open spec fn mark_completion(marks: Seq<Kept>, typed: Seq<char>) -> Option<Seq<char>> {
    let wanted = key_of(typed);
    if has_space(typed) || wanted.len() == 0 {
        None
    } else {
        match newest_of(marks, wanted) {
            Some(m) => Some(m.url.skip((prefix_chars(m.url) + wanted.len()) as int)),
            None => None,
        }
    }
}

/// The bookmarks worth walking for what was typed, best first, and newest
/// first among equals.
pub open spec fn marks_matching(marks: Seq<Kept>, typed: Seq<char>) -> Seq<Kept> {
    let newest = marks.reverse();
    ranked(
        newest.map_values(|m: Kept| key_of(m.url)),
        newest.map_values(|m: Kept| m.title),
        typed,
    ).map_values(|i: int| newest[i])
}

/// What [`Bookmarks::toggle`] did.
#[derive(Debug, Clone, Copy, PartialEq, Eq, Structural)]
pub enum Toggled {
    Added,
    Removed,
}

/// What is to be written to the file.
#[derive(Debug, PartialEq, Eq)]
pub enum Change {
    /// Nothing: the bookmarks are of this run only.
    Nothing,
    /// This, after what is there.
    Append(String),
    /// This, in place of what is there.
    Rewrite(String),
}

/// The file after a change.
pub open spec fn file_after(file: Seq<char>, change: Change) -> Seq<char> {
    match change {
        Change::Nothing => file,
        Change::Append(more) => file + more@,
        Change::Rewrite(whole) => whole@,
    }
}

/// The newline that a file wants before another line, when its last line has
/// none.
pub open spec fn gap_after(file: Seq<char>) -> Seq<char> {
    if cut_short(file).len() > 0 {
        seq!['\n']
    } else {
        Seq::empty()
    }
}

/// The bookmarks, in file order, and where they are kept.
#[derive(Debug)]
pub struct Bookmarks {
    pub items: Vec<Item>,
    /// The file, or `None` when there is nowhere to keep one.
    pub path: Option<String>,
}

impl View for Bookmarks {
    type V = Seq<Row>;

    open spec fn view(&self) -> Seq<Row> {
        rows(self.items@)
    }
}

/// What the text of a file says.
fn read(file: &str) -> (r: Vec<Item>)
    ensures
        rows(r@) == rows_of(file@),
{
    let text = chars_of(file);
    let mut items: Vec<Item> = Vec::new();
    let mut at: usize = 0;
    let ghost mut seen: Seq<Seq<char>> = Seq::empty();
    proof {
        assert(text@.skip(0) =~= text@);
        assert(seen + whole_lines(text@) =~= whole_lines(text@));
        assert(rows(items@) =~= rows_for(seen));
    }
    loop
        invariant
            text@ == file@,
            at <= text@.len(),
            whole_lines(text@) == seen + whole_lines(text@.skip(at as int)),
            cut_short(text@) == cut_short(text@.skip(at as int)),
            rows(items@) == rows_for(seen),
        decreases text@.len() - at,
    {
        let rest = slice_subrange(text.as_slice(), at, text.len());
        let end = position(rest, '\n');
        proof {
            assert(rest@ =~= text@.skip(at as int));
        }
        if end >= rest.len() {
            proof {
                assert(seen + Seq::<Seq<char>>::empty() =~= seen);
            }
            if rest.len() > 0 {
                let ghost was = rows(items@);
                items.push(item_of(rest));
                proof {
                    assert(rows(items@) =~= was.push(row_of(rest@)));
                    lemma_rows_for_push(seen, rest@);
                }
            }
            return items;
        }
        let line = slice_subrange(rest, 0, end);
        let ghost was = rows(items@);
        items.push(item_of(line));
        proof {
            assert(rows(items@) =~= was.push(row_of(line@)));
            lemma_rows_for_push(seen, line@);
            assert(line@ =~= rest@.take(end as int));
            assert(rest@.skip(end + 1) =~= text@.skip(at + end + 1));
            let more = whole_lines(text@.skip(at + end + 1));
            assert(seen + (seq![line@] + more) =~= seen.push(line@) + more);
            seen = seen.push(line@);
        }
        at = at + end + 1;
    }
}

/// A line of the file as it is kept.
fn item_of(line: &[char]) -> (r: Item)
    ensures
        r@ == row_of(line@),
{
    match Bookmarks::parse_chars(line) {
        Some(mark) => Item::Mark { mark, line: string_of(line) },
        None => Item::Other(string_of(line)),
    }
}

impl Bookmarks {
    /// Bookmarks kept nowhere but in this run.
    pub fn in_memory() -> (r: Bookmarks)
        ensures
            r@ == Seq::<Row>::empty(),
            r.path is None,
    {
        let r = Bookmarks { items: Vec::new(), path: None };
        proof {
            assert(r@ =~= Seq::empty());
        }
        r
    }

    /// The bookmarks that the file at `path` says.
    pub fn load(file: &str, path: String) -> (r: Bookmarks)
        ensures
            r@ == rows_of(file@),
            r.path == Some(path),
    {
        Bookmarks { items: read(file), path: Some(path) }
    }

    /// Where the bookmarks are kept, or `None` for this run only.
    pub fn path(&self) -> (r: Option<&String>)
        ensures
            r == (match self.path {
                Some(path) => Some(&path),
                None => None,
            }),
    {
        self.path.as_ref()
    }

    /// One line, into a bookmark, or `None` for a line that is not one.
    fn parse_chars(line: &[char]) -> (r: Option<Bookmark>)
        ensures
            match r {
                Some(m) => mark_of(line@) == Some(m@),
                None => mark_of(line@) is None,
            },
    {
        let tab = position(line, '\t');
        let url = strip_chars(slice_subrange(line, 0, tab), Edge::Padding);
        proof {
            assert(line@.subrange(0, tab as int) =~= line@.take(tab as int));
        }
        if !records_chars(url) {
            return None;
        }
        let from: usize = if tab < line.len() {
            tab + 1
        } else {
            tab
        };
        let title = slice_subrange(line, from, line.len());
        proof {
            if tab < line@.len() {
                assert(title@ =~= line@.skip(tab + 1));
            } else {
                assert(title@ =~= Seq::empty());
            }
        }
        let clean = sanitize_chars(title);
        Some(Bookmark { url: string_of(url), title: string_of(trim_chars(clean.as_slice())) })
    }

    /// One line, into a bookmark, or `None` for a line that is not one.
    ///
    /// Split on the first tab. The url, trimmed of spaces and carriage
    /// returns, must be one [`Bookmarks::keeps`]; the title is made plain and
    /// trimmed, and may be empty or absent.
    pub fn parse_line(line: &str) -> (r: Option<Bookmark>)
        ensures
            match r {
                Some(m) => mark_of(line@) == Some(m@),
                None => mark_of(line@) is None,
            },
    {
        let line = chars_of(line);
        Bookmarks::parse_chars(line.as_slice())
    }

    /// Whether `url` is one that can be kept at all: the history's rule.
    pub fn keeps(url: &str) -> (r: bool)
        ensures
            r == recordable(url@),
    {
        let url = chars_of(url);
        records_chars(url.as_slice())
    }

    /// Every bookmark, in file order; a url that appears twice appears once,
    /// where its last line is and with that line's title.
    pub fn all(&self) -> (r: Vec<&Bookmark>)
        ensures
            r@.len() == all_of(self@).len(),
            forall|k: int| 0 <= k < r@.len() ==> (#[trigger] r@[k])@ == all_of(self@)[k],
    {
        let mut marks: Vec<&Bookmark> = Vec::new();
        let mut i: usize = 0;
        proof {
            assert(self@.take(0) =~= Seq::<Row>::empty());
            assert(kept(marks@) =~= marks_of(self@.take(0)));
        }
        while i < self.items.len()
            invariant
                i <= self.items@.len(),
                kept(marks@) == marks_of(self@.take(i as int)),
            decreases self.items@.len() - i,
        {
            let ghost before = kept(marks@);
            match &self.items[i] {
                Item::Mark { mark, line: _ } => {
                    marks.push(mark);
                    proof {
                        assert(kept(marks@) =~= before.push(mark@));
                    }
                },
                Item::Other(_) => {},
            }
            proof {
                assert(self@.take(i + 1).drop_last() =~= self@.take(i as int));
                assert(self@.take(i + 1).last() == self.items@[i as int]@);
            }
            i += 1;
        }
        proof {
            assert(self@.take(i as int) =~= self@);
        }
        let ghost every = kept(marks@);
        // From the last to the first, so that what is kept is what no later
        // one replaces.
        let mut backward: Vec<&Bookmark> = Vec::new();
        let mut n: usize = marks.len();
        proof {
            assert(every.skip(n as int) =~= Seq::empty());
            assert(kept(backward@).reverse() =~= last_ones(every.skip(n as int)));
        }
        while n > 0
            invariant
                n <= marks@.len(),
                every == kept(marks@),
                kept(backward@).reverse() == last_ones(every.skip(n as int)),
            decreases n,
        {
            n -= 1;
            let ghost was = kept(backward@);
            let ghost rest = every.skip(n + 1);
            proof {
                assert(every.skip(n as int).drop_first() =~= rest);
                assert(every.skip(n as int)[0] == marks@[n as int]@);
            }
            let mut later = false;
            let mut j: usize = n + 1;
            while j < marks.len()
                invariant
                    n < j <= marks@.len(),
                    every == kept(marks@),
                    rest == every.skip(n + 1),
                    later ==> among(rest, every[n as int].url),
                    !later ==> forall|k: int|
                        n < k < j ==> (#[trigger] every[k]).url != every[n as int].url,
                decreases marks@.len() - j,
            {
                if marks[j].url == marks[n].url {
                    later = true;
                    proof {
                        assert(rest[j - n - 1] == every[j as int]);
                        assert(every[j as int].url == every[n as int].url);
                    }
                }
                j += 1;
            }
            proof {
                if !later {
                    assert forall|k: int| 0 <= k < rest.len() implies (#[trigger] rest[k]).url
                        != every[n as int].url by {
                        assert(rest[k] == every[n + 1 + k]);
                    }
                }
            }
            if !later {
                backward.push(marks[n]);
                proof {
                    assert(kept(backward@) =~= was.push(every[n as int]));
                    assert(kept(backward@).reverse() =~= seq![every[n as int]] + was.reverse());
                }
            }
        }
        proof {
            assert(every.skip(0) =~= every);
        }
        let out = reversed(&backward);
        proof {
            assert forall|k: int| 0 <= k < out@.len() implies (#[trigger] out@[k])@ == all_of(
                self@,
            )[k] by {
                assert(kept(backward@).reverse()[k] == backward@[backward@.len() - 1 - k]@);
            }
        }
        out
    }

    /// Whether `url`, exactly, is bookmarked.
    pub fn has(&self, url: &str) -> (r: bool)
        ensures
            r == has_url(self@, url@),
    {
        let wanted = url.to_owned();
        let mut i: usize = 0;
        while i < self.items.len()
            invariant
                i <= self.items@.len(),
                wanted@ == url@,
                forall|j: int| 0 <= j < i ==> !keeps_url(#[trigger] self@[j], url@),
            decreases self.items@.len() - i,
        {
            if is_of(&self.items[i], &wanted) {
                proof {
                    assert(keeps_url(self@[i as int], url@));
                }
                return true;
            }
            i += 1;
        }
        false
    }

    /// The toggle itself, on the list.
    fn apply(&mut self, url: &str, title: &str) -> (r: Toggled)
        ensures
            final(self)@ == toggled(old(self)@, url@, title@),
            final(self).path == old(self).path,
            r == (if has_url(old(self)@, url@) {
                Toggled::Removed
            } else {
                Toggled::Added
            }),
    {
        let ghost before = self@;
        if self.has(url) {
            let wanted = url.to_owned();
            let mut i: usize = 0;
            let ghost total = self.items@.len();
            let ghost mut done: int = 0;
            proof {
                assert(before.take(0) =~= Seq::<Row>::empty());
                assert(before.skip(0) =~= before);
                assert(rows_without(before.take(0), url@) + before.skip(0) =~= before);
            }
            while i < self.items.len()
                invariant
                    wanted@ == url@,
                    0 <= i <= self.items@.len(),
                    0 <= done <= before.len(),
                    self.items@.len() - i == before.len() - done,
                    rows_without(before.take(done), url@).len() == i,
                    self@ == rows_without(before.take(done), url@) + before.skip(done),
                    self.path == old(self).path,
                decreases before.len() - done,
            {
                let ghost now = self@;
                proof {
                    assert(self@[i as int] == before.skip(done)[0]);
                    assert(before.take(done + 1).drop_last() =~= before.take(done));
                    assert(before.take(done + 1).last() == before[done]);
                    assert(before.skip(done)[0] == before[done]);
                }
                if is_of(&self.items[i], &wanted) {
                    let gone = self.items.remove(i);
                    proof {
                        assert(self@ =~= now.remove(i as int));
                        assert(self@ =~= rows_without(before.take(done + 1), url@) + before.skip(
                            done + 1,
                        ));
                    }
                } else {
                    i += 1;
                    proof {
                        assert(self@ =~= rows_without(before.take(done + 1), url@) + before.skip(
                            done + 1,
                        ));
                    }
                }
                proof {
                    done = done + 1;
                }
            }
            proof {
                assert(before.take(done) =~= before);
                assert(self@ =~= rows_without(before, url@));
            }
            return Toggled::Removed;
        }
        let title_chars = chars_of(title);
        let clean = sanitize_chars(title_chars.as_slice());
        let said = trim_chars(clean.as_slice());
        let mut line = url.to_owned();
        if said.len() > 0 {
            line.push('\t');
            line.append(string_of(said).as_str());
        }
        proof {
            assert(line@ =~= new_row(url@, title@).line);
        }
        let mark = Bookmark { url: url.to_owned(), title: string_of(said) };
        self.items.push(Item::Mark { mark, line });
        proof {
            assert(self@ =~= before.push(new_row(url@, title@)));
        }
        Toggled::Added
    }

    /// Add the page, or remove it if it is there: which, and what is to be
    /// written.
    ///
    /// `file` is what the file says now, read under [`LOCK`]; what is added or
    /// removed is added to or removed from that. `None` is a file that there
    /// is none of, or that could not be held: the change is made in memory all
    /// the same. An add appends one line; a removal writes the file again
    /// without that url's lines, every other line as it was.
    pub fn toggle(&mut self, url: &str, title: &str, file: Option<&str>) -> (r: (Toggled, Change))
        ensures
            final(self).path == old(self).path,
            ({
                let was = match file {
                    Some(text) => rows_of(text@),
                    None => old(self)@,
                };
                &&& final(self)@ == toggled(was, url@, title@)
                &&& r.0 == (if has_url(was, url@) {
                    Toggled::Removed
                } else {
                    Toggled::Added
                })
                &&& match (file, r.1) {
                    (None, Change::Nothing) => true,
                    (Some(text), Change::Append(more)) => !has_url(was, url@) && more@ == gap_after(
                        text@,
                    ) + new_row(url@, title@).line.push('\n'),
                    (Some(text), Change::Rewrite(whole)) => has_url(was, url@) && whole@ == file_of(
                        final(self)@,
                    ),
                    _ => false,
                }
            }),
    {
        match file {
            None => (self.apply(url, title), Change::Nothing),
            Some(text) => {
                self.items = read(text);
                let toggled = self.apply(url, title);
                match toggled {
                    Toggled::Added => {
                        let mut more = String::new();
                        let chars = chars_of(text);
                        proof {
                            lemma_ends_in_newline(chars@);
                        }
                        if chars.len() > 0 && chars[chars.len() - 1] != '\n' {
                            more.push('\n');
                        }
                        let n: usize = self.items.len();
                        let ghost row = self@.last();
                        let line = line_text(&self.items[n - 1]);
                        more.append(line.as_str());
                        more.push('\n');
                        proof {
                            assert(more@ =~= gap_after(text@) + new_row(url@, title@).line.push(
                                '\n',
                            ));
                        }
                        (toggled, Change::Append(more))
                    },
                    Toggled::Removed => {
                        let mut whole = String::new();
                        let mut i: usize = 0;
                        proof {
                            assert(self@.take(0) =~= Seq::<Row>::empty());
                        }
                        while i < self.items.len()
                            invariant
                                i <= self.items@.len(),
                                whole@ == file_of(self@.take(i as int)),
                            decreases self.items@.len() - i,
                        {
                            let line = line_text(&self.items[i]);
                            whole.append(line.as_str());
                            whole.push('\n');
                            proof {
                                assert(self@.take(i + 1).drop_last() =~= self@.take(i as int));
                                assert(self@.take(i + 1).last() == self.items@[i as int]@);
                                assert(whole@ =~= file_of(self@.take(i + 1)));
                            }
                            i += 1;
                        }
                        proof {
                            assert(self@.take(i as int) =~= self@);
                        }
                        (toggled, Change::Rewrite(whole))
                    },
                }
            },
        }
    }

    /// The rest of the newest bookmark whose key starts with what was typed
    /// and is longer, to be offered after it; or `None`.
    pub fn complete(&self, typed: &str) -> (r: Option<String>)
        ensures
            match r {
                Some(rest) => mark_completion(all_of(self@), typed@) == Some(rest@),
                None => mark_completion(all_of(self@), typed@) is None,
            },
    {
        let typed_chars = chars_of(typed);
        let mut i: usize = 0;
        while i < typed_chars.len()
            invariant
                i <= typed_chars@.len(),
                typed_chars@ == typed@,
                forall|j: int| 0 <= j < i ==> !is_space(#[trigger] typed_chars@[j]),
            decreases typed_chars@.len() - i,
        {
            if is_space_char(typed_chars[i]) {
                proof {
                    assert(is_space(typed@[i as int]));
                }
                return None;
            }
            i += 1;
        }
        let wanted = key_chars(typed_chars.as_slice());
        if wanted.len() == 0 {
            return None;
        }
        let marks = self.all();
        let ghost every = all_of(self@);
        let mut n: usize = marks.len();
        proof {
            assert(every.take(n as int) =~= every);
        }
        while n > 0
            invariant
                n <= marks@.len(),
                every == all_of(self@),
                every.len() == marks@.len(),
                forall|k: int| 0 <= k < marks@.len() ==> (#[trigger] marks@[k])@ == every[k],
                newest_of(every, wanted@) == newest_of(every.take(n as int), wanted@),
                wanted@ == key_of(typed@),
                wanted@.len() > 0,
                !has_space(typed@),
            decreases n,
        {
            n -= 1;
            let url = chars_of(marks[n].url.as_str());
            let known = key_chars(url.as_slice());
            proof {
                assert(every.take(n + 1).last() == every[n as int]);
                assert(every.take(n + 1).drop_last() =~= every.take(n as int));
                assert(url@ == every[n as int].url);
            }
            if known.len() > wanted.len() && starts_with(known.as_slice(), wanted.as_slice()) {
                proof {
                    lemma_prefix_inside(url@);
                }
                let total: usize = url.len();
                let from: usize = prefix_len(url.as_slice()) + wanted.len();
                let rest = slice_subrange(url.as_slice(), from, total);
                proof {
                    assert(rest@ =~= url@.skip(from as int));
                }
                return Some(string_of(rest));
            }
        }
        None
    }

    /// The bookmarks worth walking with Up for what has been typed, newest
    /// first within a tier.
    pub fn matches(&self, typed: &str) -> (r: Vec<&Bookmark>)
        ensures
            r@.len() == marks_matching(all_of(self@), typed@).len(),
            forall|k: int|
                0 <= k < r@.len() ==> (#[trigger] r@[k])@ == marks_matching(
                    all_of(self@),
                    typed@,
                )[k],
    {
        let every = self.all();
        let newest = reversed(&every);
        let ghost model = all_of(self@).reverse();
        proof {
            assert forall|k: int| 0 <= k < newest@.len() implies (#[trigger] newest@[k])@
                == model[k] by {
                assert(newest@[k] == every@[every@.len() - 1 - k]);
            }
        }
        let mut keys: Vec<Vec<char>> = Vec::new();
        let mut titles: Vec<String> = Vec::new();
        let mut i: usize = 0;
        while i < newest.len()
            invariant
                i <= newest@.len(),
                newest@.len() == model.len(),
                forall|k: int| 0 <= k < newest@.len() ==> (#[trigger] newest@[k])@ == model[k],
                keys@.len() == i,
                titles@.len() == i,
                forall|k: int| 0 <= k < i ==> (#[trigger] keys@[k])@ == key_of(model[k].url),
                forall|k: int| 0 <= k < i ==> (#[trigger] titles@[k])@ == model[k].title,
            decreases newest@.len() - i,
        {
            let url = chars_of(newest[i].url.as_str());
            keys.push(key_chars(url.as_slice()));
            titles.push(newest[i].title.clone());
            i += 1;
        }
        proof {
            assert(texts(keys@) =~= model.map_values(|m: Kept| key_of(m.url)));
            assert(strings(titles@) =~= model.map_values(|m: Kept| m.title));
        }
        let order = tiers(&keys, &titles, typed);
        let mut out: Vec<&Bookmark> = Vec::new();
        let mut j: usize = 0;
        let ghost wanted = marks_matching(all_of(self@), typed@);
        while j < order.len()
            invariant
                j <= order@.len(),
                out@.len() == j,
                newest@.len() == model.len(),
                forall|k: int| 0 <= k < newest@.len() ==> (#[trigger] newest@[k])@ == model[k],
                order@.len() == wanted.len(),
                forall|k: int| 0 <= k < order@.len() ==> (#[trigger] order@[k]) < newest@.len(),
                forall|k: int|
                    0 <= k < order@.len() ==> model[(#[trigger] order@[k]) as int] == wanted[k],
                forall|k: int| 0 <= k < j ==> (#[trigger] out@[k])@ == wanted[k],
            decreases order@.len() - j,
        {
            out.push(newest[order[j]]);
            j += 1;
        }
        out
    }
}

/// What some bookmarks are.
pub open spec fn kept(marks: Seq<&Bookmark>) -> Seq<Kept> {
    marks.map_values(|m: &Bookmark| m@)
}

/// The same, from the last to the first.
fn reversed<'a>(marks: &Vec<&'a Bookmark>) -> (r: Vec<&'a Bookmark>)
    ensures
        r@ == marks@.reverse(),
{
    let mut out: Vec<&'a Bookmark> = Vec::new();
    let mut n: usize = marks.len();
    while n > 0
        invariant
            n <= marks@.len(),
            out@.len() == marks@.len() - n,
            forall|k: int| 0 <= k < out@.len() ==> #[trigger] out@[k] == marks@[marks@.len() - 1 - k],
        decreases n,
    {
        n -= 1;
        out.push(marks[n]);
    }
    proof {
        assert(out@ =~= marks@.reverse());
    }
    out
}

/// Whether an item is the bookmark of this url.
fn is_of(item: &Item, url: &String) -> (r: bool)
    ensures
        r == keeps_url(item@, url@),
{
    match item {
        Item::Mark { mark, line: _ } => mark.url == *url,
        Item::Other(_) => false,
    }
}

/// The line of an item.
fn line_text(item: &Item) -> (r: String)
    ensures
        r@ == item@.line,
{
    match item {
        Item::Mark { mark: _, line } => line.clone(),
        Item::Other(line) => line.clone(),
    }
}

/// Nothing is cut short in a file exactly when it is empty or ends in a
/// newline.
proof fn lemma_ends_in_newline(file: Seq<char>)
    ensures
        cut_short(file).len() == 0 <==> file.len() == 0 || file.last() == '\n',
    decreases file.len(),
{
    lemma_index_of(file, '\n');
    let end = index_of(file, '\n');
    if end < file.len() {
        let rest = file.skip(end + 1);
        lemma_ends_in_newline(rest);
        if rest.len() > 0 {
            assert(rest.last() == file.last());
        } else {
            assert(file.last() == file[end]);
        }
    } else if file.len() > 0 {
        assert(file.last() == file[file.len() - 1]);
    }
}


// ---- laws ----

/// Rows none of which is of a url are left as they are when it is taken out.
proof fn lemma_without_none(rs: Seq<Row>, url: Seq<char>)
    requires
        !has_url(rs, url),
    ensures
        rows_without(rs, url) == rs,
    decreases rs.len(),
{
    if rs.len() > 0 {
        let before = rs.drop_last();
        assert(!keeps_url(rs[rs.len() - 1], url));
        assert(!has_url(before, url)) by {
            if has_url(before, url) {
                let i = choose|i: int| 0 <= i < before.len() && keeps_url(#[trigger] before[i], url);
                assert(keeps_url(rs[i], url));
            }
        }
        lemma_without_none(before, url);
        assert(before.push(rs.last()) =~= rs);
    }
}

/// What is left when a url is taken out is rows that were there, and none of
/// that url.
proof fn lemma_without_rows(rs: Seq<Row>, url: Seq<char>)
    ensures
        !has_url(rows_without(rs, url), url),
        forall|j: int|
            0 <= j < rows_without(rs, url).len() ==> rs.contains(#[trigger] rows_without(rs, url)[j]),
    decreases rs.len(),
{
    if rs.len() > 0 {
        let before = rs.drop_last();
        lemma_without_rows(before, url);
        let was = rows_without(before, url);
        let now = rows_without(rs, url);
        assert forall|j: int| 0 <= j < now.len() implies rs.contains(#[trigger] now[j])
            && !keeps_url(now[j], url) by {
            if j < was.len() {
                assert(now[j] == was[j]);
                assert(!keeps_url(was[j], url));
                let k = choose|k: int| 0 <= k < before.len() && before[k] == was[j];
                assert(rs[k] == now[j]);
            } else {
                assert(now[j] == rs[rs.len() - 1]);
            }
        }
    }
}

/// A toggle says whether the page is kept now: it is exactly when it was not.
pub proof fn law_a_toggle_turns_a_bookmark_over(
    rs: Seq<Row>,
    url: Seq<char>,
    title: Seq<char>,
)
    ensures
        has_url(toggled(rs, url, title), url) == !has_url(rs, url),
{
    lemma_without_rows(rs, url);
    if !has_url(rs, url) {
        let now = toggled(rs, url, title);
        assert(keeps_url(now[now.len() - 1], url));
    }
}

/// Adding a page and taking it away again leaves every row as it was.
pub proof fn law_toggling_twice_restores(
    rs: Seq<Row>,
    url: Seq<char>,
    title: Seq<char>,
    again: Seq<char>,
)
    requires
        !has_url(rs, url),
    ensures
        toggled(toggled(rs, url, title), url, again) == rs,
{
    let now = rs.push(new_row(url, title));
    assert(keeps_url(now[now.len() - 1], url));
    assert(now.drop_last() =~= rs);
    lemma_without_none(rs, url);
}

/// A toggle leaves every line that is not the page's as it was, and in its
/// place among the others.
pub proof fn law_a_toggle_keeps_the_other_lines(
    rs: Seq<Row>,
    url: Seq<char>,
    title: Seq<char>,
)
    ensures
        rows_without(toggled(rs, url, title), url) == rows_without(rs, url),
{
    if has_url(rs, url) {
        lemma_without_rows(rs, url);
        lemma_without_none(rows_without(rs, url), url);
    } else {
        let now = rs.push(new_row(url, title));
        assert(now.drop_last() =~= rs);
        assert(keeps_url(now.last(), url));
    }
}

/// A row as a file has it: its line has no newline, and is the bookmark it
/// says.
pub open spec fn from_file(row: Row) -> bool {
    !row.line.contains('\n') && row == row_of(row.line)
}

/// Every row is as a file has it.
pub open spec fn all_from_file(rs: Seq<Row>) -> bool {
    forall|i: int| 0 <= i < rs.len() ==> from_file(#[trigger] rs[i])
}

/// The line of a bookmark newly made reads back as the bookmark.
proof fn lemma_new_row_reads_back(url: Seq<char>, title: Seq<char>)
    requires
        recordable(url),
    ensures
        from_file(new_row(url, title)),
{
    let row = new_row(url, title);
    let line = row.line;
    let clean = sanitized(title);
    let said = trim(clean);
    law_sanitized_is_plain(title);
    lemma_trim_start(clean);
    lemma_trim_end(trim_start(clean));
    assert forall|i: int| 0 <= i < said.len() implies plain(#[trigger] said[i]) by {
        let c = said[i];
        assert(said.contains(c));
        assert(trim_start(clean).contains(c));
        assert(clean.contains(c));
        let k = choose|k: int| 0 <= k < clean.len() && clean[k] == c;
        assert(plain(clean[k]));
    }
    law_plain_text_is_left_alone(said);
    if said.len() > 0 {
        assert(!is_space(said.last()));
        assert(said[0] == trim_start(clean)[0]);
        assert(!is_space(said[0]));
    }
    assert(trim_start(said) == said);
    assert(trim_end(said) == said);
    assert forall|j: int| 0 <= j < url.len() implies line[j] != '\t' && line[j] != '\n' by {
        assert(line[j] == url[j]);
        assert(plain(url[j]));
    }
    lemma_index_of_is(line, '\t', url.len() as int);
    assert(line.take(url.len() as int) =~= url);
    if url.len() > 0 {
        assert(!is_space(url[0]));
        assert(!is_space(url[url.len() - 1]));
    }
    lemma_strip_nothing(url, Edge::Padding);
    if said.len() > 0 {
        assert(line.skip(url.len() as int + 1) =~= said);
    } else {
        assert(sanitized(Seq::<char>::empty()) =~= Seq::<char>::empty());
        assert(trim(Seq::<char>::empty()) =~= Seq::<char>::empty());
        assert(said =~= Seq::<char>::empty());
    }
    if line.contains('\n') {
        let i = choose|i: int| 0 <= i < line.len() && line[i] == '\n';
        if i > url.len() {
            assert(line[i] == said[i - url.len() - 1]);
            assert(plain(said[i - url.len() - 1]));
        }
    }
}

/// The lines of a file have no newline in them.
proof fn lemma_lines_have_no_newline(file: Seq<char>)
    ensures
        forall|i: int| 0 <= i < whole_lines(file).len() ==> !(#[trigger] whole_lines(file)[i]).contains('\n'),
        !cut_short(file).contains('\n'),
    decreases file.len(),
{
    lemma_index_of(file, '\n');
    let end = index_of(file, '\n');
    if end < file.len() {
        let rest = file.skip(end + 1);
        lemma_lines_have_no_newline(rest);
        let first = file.take(end);
        if first.contains('\n') {
            let k = choose|k: int| 0 <= k < first.len() && first[k] == '\n';
            assert(file[k] == '\n');
        }
        let all = whole_lines(file);
        assert forall|i: int| 0 <= i < all.len() implies !(#[trigger] all[i]).contains('\n') by {
            if i > 0 {
                assert(all[i] == whole_lines(rest)[i - 1]);
            }
        }
    }
}

/// A file whose last line is cut short, with the newline it wanted.
proof fn lemma_newline_ends_the_line(file: Seq<char>)
    ensures
        cut_short(file).len() > 0 ==> whole_lines(file.push('\n')) == whole_lines(file).push(
            cut_short(file),
        ),
        cut_short(file).len() > 0 ==> cut_short(file.push('\n')).len() == 0,
    decreases file.len(),
{
    lemma_index_of(file, '\n');
    let end = index_of(file, '\n');
    let all = file.push('\n');
    if end < file.len() {
        let rest = file.skip(end + 1);
        lemma_newline_ends_the_line(rest);
        assert forall|j: int| 0 <= j < end implies all[j] != '\n' by {
            assert(all[j] == file[j]);
        }
        lemma_index_of_is(all, '\n', end);
        assert(all.take(end) =~= file.take(end));
        assert(all.skip(end + 1) =~= rest.push('\n'));
        if cut_short(file).len() > 0 {
            assert(whole_lines(all) =~= whole_lines(file).push(cut_short(file)));
        }
    } else if file.len() > 0 {
        assert forall|j: int| 0 <= j < file.len() implies all[j] != '\n' by {
            assert(all[j] == file[j]);
        }
        lemma_index_of_is(all, '\n', file.len() as int);
        assert(all.take(file.len() as int) =~= file);
        let rest = all.skip(file.len() as int + 1);
        assert(rest =~= Seq::<char>::empty());
        assert(index_of(rest, '\n') == 0);
        assert(whole_lines(rest) =~= Seq::empty());
        assert(cut_short(rest) == rest);
        assert(whole_lines(file) =~= Seq::empty());
        assert(whole_lines(all) =~= whole_lines(file).push(file));
    }
}

/// What a file says is rows as a file has them.
pub proof fn law_rows_of_a_file_are_from_it(file: Seq<char>)
    ensures
        all_from_file(rows_of(file)),
{
    lemma_lines_have_no_newline(file);
    let lines = file_lines(file);
    assert forall|i: int| 0 <= i < rows_of(file).len() implies from_file(
        #[trigger] rows_of(file)[i],
    ) by {
        assert(rows_of(file)[i] == row_of(lines[i]));
        if i < whole_lines(file).len() {
            assert(lines[i] == whole_lines(file)[i]);
        }
    }
}

/// Rows written out read back as the same rows.
pub proof fn law_a_file_reads_back(rs: Seq<Row>)
    requires
        all_from_file(rs),
    ensures
        rows_of(file_of(rs)) == rs,
        cut_short(file_of(rs)).len() == 0,
    decreases rs.len(),
{
    if rs.len() == 0 {
        let file = file_of(rs);
        assert(index_of(file, '\n') == 0);
        assert(whole_lines(file) =~= Seq::empty());
        assert(rows_of(file) =~= rs);
    } else {
        let before = rs.drop_last();
        assert forall|i: int| 0 <= i < before.len() implies from_file(#[trigger] before[i]) by {
            assert(before[i] == rs[i]);
        }
        law_a_file_reads_back(before);
        assert(from_file(rs[rs.len() - 1]));
        lemma_one_more_line(file_of(before), rs.last().line);
        lemma_rows_for_push(whole_lines(file_of(before)), rs.last().line);
        assert(before.push(rs.last()) =~= rs);
    }
}

/// What a toggle says to write makes the file say what the toggle made of it:
/// the next run reads the same bookmarks.
pub proof fn law_what_is_written_reads_back(
    file: Seq<char>,
    url: Seq<char>,
    title: Seq<char>,
    change: Change,
)
    requires
        recordable(url),
        match change {
            Change::Nothing => false,
            Change::Append(more) => !has_url(rows_of(file), url) && more@ == gap_after(file)
                + new_row(url, title).line.push('\n'),
            Change::Rewrite(whole) => has_url(rows_of(file), url) && whole@ == file_of(
                toggled(rows_of(file), url, title),
            ),
        },
    ensures
        rows_of(file_after(file, change)) == toggled(rows_of(file), url, title),
{
    law_rows_of_a_file_are_from_it(file);
    let rs = rows_of(file);
    match change {
        Change::Nothing => {},
        Change::Append(more) => {
            lemma_new_row_reads_back(url, title);
            let line = new_row(url, title).line;
            let ended = file + gap_after(file);
            if cut_short(file).len() > 0 {
                lemma_newline_ends_the_line(file);
                assert(ended =~= file.push('\n'));
            } else {
                assert(ended =~= file);
            }
            assert(whole_lines(ended) == file_lines(file));
            lemma_one_more_line(ended, line);
            assert(file + more@ =~= ended + line.push('\n'));
            lemma_rows_for_push(file_lines(file), line);
        },
        Change::Rewrite(whole) => {
            lemma_without_rows(rs, url);
            let now = rows_without(rs, url);
            assert forall|j: int| 0 <= j < now.len() implies from_file(#[trigger] now[j]) by {
                let k = choose|k: int| 0 <= k < rs.len() && rs[k] == now[j];
                assert(from_file(rs[k]));
            }
            law_a_file_reads_back(now);
        },
    }
}

/// A line is an address, and a title behind the tab when there is one; blanks
/// around the address are not of it, and what is no address is no bookmark.
pub proof fn law_a_line_is_an_address_and_a_title(url: Seq<char>, title: Seq<char>)
    requires
        recordable(url),
    ensures
        mark_of(url + seq!['\t'] + title) == Some(Kept { url, title: trim(sanitized(title)) }),
        mark_of(url) == Some(Kept { url, title: trim(sanitized(Seq::empty())) }),
        mark_of(title) matches Some(m) ==> recordable(m.url),
{
    let line = url + seq!['\t'] + title;
    let n = url.len() as int;
    assert(!is_space(url[0]) && !is_space(url[n - 1]));
    assert forall|i: int| 0 <= i < n implies url[i] != '\t' by {
        assert(!is_space(url[i]));
    }
    assert forall|j: int| 0 <= j < n implies line[j] != '\t' by {
        assert(line[j] == url[j]);
    }
    lemma_index_of_is(line, '\t', n);
    lemma_index_of_is(url, '\t', n);
    assert(line.take(n) =~= url);
    assert(line.skip(n + 1) =~= title);
    assert(url.take(n) =~= url);
    lemma_strip_nothing(url, Edge::Padding);
}

/// Taking a bookmark away takes every line that keeps it and no other, and what
/// is left stays in its order.
pub proof fn law_taking_one_away_takes_no_other(a: Seq<Row>, b: Seq<Row>, url: Seq<char>, r: Row)
    ensures
        rows_without(a + b, url) == rows_without(a, url) + rows_without(b, url),
        rows_without(seq![r], url) == if r.mark matches Some(m) && m.url == url {
            Seq::empty()
        } else {
            seq![r]
        },
    decreases b.len(),
{
    assert(seq![r].drop_last() =~= Seq::<Row>::empty());
    assert(rows_without(seq![r].drop_last(), url) =~= Seq::<Row>::empty());
    assert(Seq::<Row>::empty().push(r) =~= seq![r]);
    if b.len() == 0 {
        assert(a + b =~= a);
        assert(rows_without(a, url) + rows_without(b, url) =~= rows_without(a, url));
    } else {
        law_taking_one_away_takes_no_other(a, b.drop_last(), url, r);
        assert((a + b).drop_last() =~= a + b.drop_last());
        assert(rows_without(a + b, url) =~= rows_without(a, url) + rows_without(b, url));
    }
}

/// A bookmark that is kept goes on a line of its own at the end: its address, and
/// its title when it has one.
pub proof fn law_a_bookmark_is_kept_at_the_end(rs: Seq<Row>, url: Seq<char>, title: Seq<char>)
    requires
        !has_url(rs, url),
    ensures
        toggled(rs, url, title).drop_last() == rs,
        toggled(rs, url, title).last().mark == Some(Kept { url, title: trim(sanitized(title)) }),
        trim(sanitized(title)).len() > 0 ==> toggled(rs, url, title).last().line == url + seq![
            '\t',
        ] + trim(sanitized(title)),
        trim(sanitized(title)).len() == 0 ==> toggled(rs, url, title).last().line == url,
{
    assert(toggled(rs, url, title).drop_last() =~= rs);
}

/// Every address that is kept is listed once, as it was kept last.
pub proof fn law_an_address_is_listed_once(marks: Seq<Kept>, url: Seq<char>)
    ensures
        among(last_ones(marks), url) <==> among(marks, url),
        forall|i: int, j: int|
            0 <= i < j < last_ones(marks).len() ==> (#[trigger] last_ones(marks)[i]).url != (
            #[trigger] last_ones(marks)[j]).url,
        marks.len() > 0 ==> last_ones(marks).len() > 0 && last_ones(marks).last() == marks.last(),
        last_ones(marks).len() <= marks.len(),
    decreases marks.len(),
{
    if marks.len() > 0 {
        let rest = marks.drop_first();
        law_an_address_is_listed_once(rest, url);
        law_an_address_is_listed_once(rest, marks[0].url);
        let all = last_ones(marks);
        let later = last_ones(rest);
        assert(rest.len() > 0 ==> rest.last() == marks.last());
        if among(rest, url) {
            let i = choose|i: int| 0 <= i < rest.len() && (#[trigger] rest[i]).url == url;
            assert(marks[i + 1] == rest[i]);
        }
        if among(marks, url) {
            let i = choose|i: int| 0 <= i < marks.len() && (#[trigger] marks[i]).url == url;
            if i > 0 {
                assert(rest[i - 1] == marks[i]);
            }
        }
        if !among(rest, marks[0].url) {
            assert(all[0] == marks[0]);
            assert forall|k: int| 1 <= k < all.len() implies #[trigger] all[k] == later[k - 1] by {}
            if among(later, url) {
                let i = choose|i: int| 0 <= i < later.len() && (#[trigger] later[i]).url == url;
                assert(all[i + 1] == later[i]);
            }
            if among(all, url) {
                let i = choose|i: int| 0 <= i < all.len() && (#[trigger] all[i]).url == url;
                if i > 0 {
                    assert(later[i - 1].url == url);
                }
            }
            assert forall|i: int, j: int| 0 <= i < j < all.len() implies (#[trigger] all[i]).url
                != (#[trigger] all[j]).url by {
                assert(all[j] == later[j - 1]);
                if i == 0 {
                    assert(!among(later, marks[0].url));
                    assert(later[j - 1].url != marks[0].url);
                } else {
                    assert(all[i] == later[i - 1]);
                }
            }
            if later.len() > 0 {
                assert(all.last() == later.last());
            } else {
                assert(rest.len() == 0);
                assert(all.last() == marks[0]);
            }
        } else {
            assert(rest.len() > 0);
        }
    }
}

/// What is typed is finished by the bookmark kept last of those that go on from
/// it, and it is offered whenever there is one.
pub proof fn law_the_last_bookmark_that_goes_on_finishes_it(
    marks: Seq<Kept>,
    m: Kept,
    typed: Seq<char>,
)
    requires
        forall|i: int| 0 <= i < typed.len() ==> !is_space(#[trigger] typed[i]),
        key_of(typed).len() > 0,
    ensures
        ({
            let wanted = key_of(typed);
            let on = key_of(m.url).len() > wanted.len() && key_of(m.url).take(wanted.len() as int)
                == wanted;
            &&& on ==> (mark_completion(marks.push(m), typed) matches Some(rest) && key_of(m.url)
                == wanted + crate::strings::lower_all(rest))
            &&& !on ==> mark_completion(marks.push(m), typed) == mark_completion(marks, typed)
            &&& mark_completion(Seq::empty(), typed) is None
        }),
{
    let wanted = key_of(typed);
    let all = marks.push(m);
    assert(all.drop_last() =~= marks);
    let n = wanted.len() as int;
    let on = key_of(m.url).len() > n && key_of(m.url).take(n) == wanted;
    if key_of(m.url).len() >= n {
        assert(key_of(m.url).take(n) =~= key_of(m.url).subrange(0, n));
    }
    assert(mark_goes_on(m, wanted) <==> on);
    assert(newest_of(all, wanted) == if mark_goes_on(m, wanted) {
        Some(m)
    } else {
        newest_of(marks, wanted)
    });
    if on {
        lemma_prefix_inside(m.url);
        let p = prefix_chars(m.url) as int;
        let rest = m.url.skip(p + n);
        assert(crate::strings::lower_all(rest) =~= key_of(m.url).skip(n));
        assert(key_of(m.url) =~= key_of(m.url).take(n) + key_of(m.url).skip(n));
    }
}

/// With nothing typed the bookmarks are listed from the last kept to the first.
pub proof fn law_the_bookmark_kept_last_is_listed_first(marks: Seq<Kept>, typed: Seq<char>)
    requires
        trim(typed).len() == 0,
    ensures
        marks_matching(marks, typed) == marks.reverse(),
{
    assert(marks_matching(marks, typed) =~= marks.reverse());
}

/// A bookmark is written behind whatever was there, on a line of its own.
pub proof fn law_a_bookmark_starts_its_own_line(file: Seq<char>)
    ensures
        file.len() == 0 ==> gap_after(file).len() == 0,
        file.len() > 0 && file.last() == '\n' ==> gap_after(file).len() == 0,
        file.len() > 0 && file.last() != '\n' ==> gap_after(file) == seq!['\n'],
    decreases file.len(),
{
    lemma_index_of(file, '\n');
    let end = index_of(file, '\n');
    if end < file.len() {
        let rest = file.skip(end + 1);
        law_a_bookmark_starts_its_own_line(rest);
        if rest.len() > 0 {
            assert(rest.last() == file.last());
        } else {
            assert(end == file.len() - 1);
            assert(file.last() == '\n');
        }
    } else if file.len() > 0 {
        assert(file.contains(file.last()));
    }
}

}
