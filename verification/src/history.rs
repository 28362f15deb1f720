//! The pages visited, for the url bar to offer back.
//!
//! What is recorded is a url and the title it last had, how many times it was
//! visited and when last. Only `http`, `https` and `file` pages are recorded
//! ([`History::records`]). The url bar walks what is here with Up and Down,
//! and offers the rest of a url it knows after what is being typed.
//!
//! It is kept as a log, one line per visit, folded when it is read: the last
//! line for a url is the one that counts. A log that has grown to
//! [`COMPACT_AT`] lines, or that ends in a line cut short, is to be written
//! again as [`History::compacted`] has it.
use vstd::prelude::*;
use vstd::slice::slice_subrange;

use crate::glass::lemma_first_piece;
use crate::strings::{
    chars_of, contains, decimal, decimal_chars, holds, index_of, is_digit, is_space, is_space_char,
    lemma_decimal, lemma_index_of, lemma_index_of_is, lower_all, lower_chars, lowercase_of,
    lowered, number, parse_number, pieces, position, starts, starts_with, starts_with_word, string_of,
    trim, trim_chars,
};
use crate::text::{
    all_plain, is_plain, law_plain_text_is_left_alone, law_sanitized_is_plain,
    lemma_trimmed_is_plain, plain, sanitize_chars, sanitized,
};

verus! {

/// Entries kept.
pub const CAP: usize = 2000;

/// Lines in the log at which it is compacted.
pub const COMPACT_AT: usize = 4000;

/// The file in the profile the log is kept in.
pub const FILE: &'static str = "history";

/// One page, as it was last seen.
#[derive(Debug, PartialEq, Eq)]
pub struct Entry {
    pub url: String,
    /// The last title it had that was not empty.
    pub title: String,
    /// How many times it has been visited.
    pub visits: u32,
    /// When it was last visited, in seconds since the epoch.
    pub last: u64,
}

/// What an [`Entry`] is.
#[verifier::ext_equal]
pub struct Page {
    pub url: Seq<char>,
    pub title: Seq<char>,
    pub visits: u32,
    pub last: u64,
}

impl View for Entry {
    type V = Page;

    open spec fn view(&self) -> Page {
        Page { url: self.url@, title: self.title@, visits: self.visits, last: self.last }
    }
}

/// The pages that some entries are.
pub open spec fn pages(entries: Seq<Entry>) -> Seq<Page> {
    entries.map_values(|e: Entry| e@)
}

// ---- which pages, and by what they are matched ----

/// A url of this scheme, with something after it.
pub open spec fn under(url: Seq<char>, scheme: Seq<char>) -> bool {
    starts(lower_all(url), scheme) && url.len() > scheme.len()
}

/// A url to remember: a web page or a file, and nothing that could not be
/// written as one field of one line.
pub open spec fn recordable(url: Seq<char>) -> bool {
    &&& under(url, "http://"@) || under(url, "https://"@) || under(url, "file://"@)
    &&& forall|i: int| 0 <= i < url.len() ==> !is_space(#[trigger] url[i]) && plain(url[i])
}

/// How many characters of a url its key leaves off the front: `https://` and
/// a `www.` after it.
pub open spec fn prefix_chars(url: Seq<char>) -> nat {
    let scheme: nat = if starts(lower_all(url), "https://"@) {
        "https://"@.len()
    } else {
        0
    };
    if starts(lower_all(url.skip(scheme as int)), "www."@) {
        scheme + "www."@.len()
    } else {
        scheme
    }
}

/// The part of a url that is matched against: in lower case, with `https://`
/// and a leading `www.` taken off. `http://` is kept.
pub open spec fn key_of(url: Seq<char>) -> Seq<char> {
    lower_all(url.skip(prefix_chars(url) as int))
}

/// The prefix of a url is inside it.
pub proof fn lemma_prefix_inside(url: Seq<char>)
    ensures
        prefix_chars(url) <= url.len(),
        key_of(url).len() == url.len() - prefix_chars(url),
{
}

/// How many characters of a url its key leaves off the front.
pub(crate) fn prefix_len(url: &[char]) -> (n: usize)
    ensures
        n == prefix_chars(url@),
        n <= url@.len(),
{
    proof {
        reveal_strlit("https://");
        reveal_strlit("www.");
        assert(url@.skip(0) =~= url@);
    }
    let low = lower_chars(url);
    let scheme: usize = if starts_with_word(low.as_slice(), "https://") {
        8
    } else {
        0
    };
    proof {
        assert(lower_all(url@.skip(scheme as int)) =~= low@.subrange(
            scheme as int,
            low@.len() as int,
        ));
    }
    if starts_with_word(slice_subrange(low.as_slice(), scheme, low.len()), "www.") {
        scheme + 4
    } else {
        scheme
    }
}

/// The part of a url that is matched against.
pub(crate) fn key_chars(url: &[char]) -> (v: Vec<char>)
    ensures
        v@ == key_of(url@),
{
    let n = prefix_len(url);
    let rest = slice_subrange(url, n, url.len());
    proof {
        assert(rest@ =~= url@.skip(n as int));
    }
    lower_chars(rest)
}

/// The part of a url that is matched against: in lower case, with `https://`
/// and a leading `www.` taken off.
///
/// `http://` is kept. What is typed without a scheme is sent as `https://`, so
/// a completion that matched an `http://` site on its host would send the
/// person to it over the wrong scheme. An `http://` site is offered once `http`
/// is typed, and walked to with Up either way.
pub fn key(url: &str) -> (r: String)
    ensures
        r@ == key_of(url@),
{
    let url = chars_of(url);
    let v = key_chars(url.as_slice());
    string_of(v.as_slice())
}

/// Whether a url is of this scheme, with something after it.
fn is_under(low: &[char], scheme: &str) -> (r: bool)
    ensures
        r == (starts(low@, scheme@) && low@.len() > scheme@.len()),
{
    let scheme = chars_of(scheme);
    starts_with(low, scheme.as_slice()) && low.len() > scheme.len()
}

/// Whether a url is one to remember.
pub(crate) fn records_chars(url: &[char]) -> (r: bool)
    ensures
        r == recordable(url@),
{
    let low = lower_chars(url);
    if !(is_under(low.as_slice(), "http://") || is_under(low.as_slice(), "https://") || is_under(
        low.as_slice(),
        "file://",
    )) {
        return false;
    }
    let mut i: usize = 0;
    while i < url.len()
        invariant
            i <= url@.len(),
            forall|j: int| 0 <= j < i ==> !is_space(#[trigger] url@[j]) && plain(url@[j]),
        decreases url@.len() - i,
    {
        if is_space_char(url[i]) || !is_plain(url[i]) {
            return false;
        }
        i += 1;
    }
    true
}

// ---- lines of the log ----

/// A page as one line of the log, without the newline: when, how many times,
/// the url and the title, with tabs between.
pub open spec fn line_of(p: Page) -> Seq<char> {
    decimal(p.last as nat) + seq!['\t'] + decimal(p.visits as nat) + seq!['\t'] + p.url
        + seq!['\t'] + p.title
}

/// The page that a line of the log is, when it is one.
pub open spec fn page_of(line: Seq<char>) -> Option<Page> {
    let first = index_of(line, '\t');
    let rest = line.skip(first + 1);
    let second = index_of(rest, '\t');
    let more = rest.skip(second + 1);
    let third = index_of(more, '\t');
    if first >= line.len() || second >= rest.len() || third >= more.len() {
        None
    } else {
        match (
            number(line.take(first), u64::MAX as nat),
            number(rest.take(second), u32::MAX as nat),
        ) {
            (Some(last), Some(visits)) => if recordable(more.take(third)) {
                Some(
                    Page {
                        url: more.take(third),
                        title: sanitized(more.skip(third + 1)),
                        visits: visits as u32,
                        last: last as u64,
                    },
                )
            } else {
                None
            },
            _ => None,
        }
    }
}

/// A page that can be written in the log: its url is one to remember, and its
/// title is plain.
pub open spec fn writable(p: Page) -> bool {
    recordable(p.url) && all_plain(p.title)
}

/// Digits have no tab among them.
proof fn lemma_decimal_has_no_tab(n: nat)
    ensures
        !decimal(n).contains('\t'),
        decimal(n)[0] != '+',
        decimal(n).len() > 0,
{
    lemma_decimal(n);
    if decimal(n).contains('\t') {
        let i = choose|i: int| 0 <= i < decimal(n).len() && decimal(n)[i] == '\t';
        assert(is_digit(decimal(n)[i]));
    }
    assert(is_digit(decimal(n)[0]));
}

/// Where the first tab is, in a text that has one after no other.
proof fn lemma_first_tab(before: Seq<char>, after: Seq<char>)
    requires
        !before.contains('\t'),
    ensures
        index_of(before + seq!['\t'] + after, '\t') == before.len(),
        (before + seq!['\t'] + after).take(before.len() as int) == before,
        (before + seq!['\t'] + after).skip(before.len() as int + 1) == after,
{
    let s = before + seq!['\t'] + after;
    assert forall|j: int| 0 <= j < before.len() implies s[j] != '\t' by {
        assert(s[j] == before[j]);
        assert(before.contains(before[j]));
    }
    lemma_index_of_is(s, '\t', before.len() as int);
    assert(s.take(before.len() as int) =~= before);
    assert(s.skip(before.len() as int + 1) =~= after);
}

/// A line of the log reads back as the page it was written for.
pub proof fn law_a_line_round_trips(p: Page)
    requires
        writable(p),
    ensures
        page_of(line_of(p)) == Some(p),
{
    let last = decimal(p.last as nat);
    let visits = decimal(p.visits as nat);
    lemma_decimal_has_no_tab(p.last as nat);
    lemma_decimal_has_no_tab(p.visits as nat);
    lemma_decimal(p.last as nat);
    lemma_decimal(p.visits as nat);
    let more = p.url + seq!['\t'] + p.title;
    let rest = visits + seq!['\t'] + more;
    let line = last + seq!['\t'] + rest;
    assert(line_of(p) =~= line);
    lemma_first_tab(last, rest);
    lemma_first_tab(visits, more);
    if p.url.contains('\t') {
        let i = choose|i: int| 0 <= i < p.url.len() && p.url[i] == '\t';
        assert(plain(p.url[i]));
    }
    lemma_first_tab(p.url, p.title);
    law_plain_text_is_left_alone(p.title);
}

impl Entry {
    /// The entry as one line of the log, newline included.
    pub fn line(&self) -> (r: String)
        ensures
            r@ == line_of(self@).push('\n'),
    {
        let mut s = String::new();
        let last = decimal_chars(self.last);
        let visits = decimal_chars(self.visits as u64);
        s.append(string_of(last.as_slice()).as_str());
        s.push('\t');
        s.append(string_of(visits.as_slice()).as_str());
        s.push('\t');
        s.append(self.url.as_str());
        s.push('\t');
        s.append(self.title.as_str());
        s.push('\n');
        proof {
            assert(s@ =~= line_of(self@).push('\n'));
        }
        s
    }
}


// ---- the list ----

/// Where the page of a url is in a list: its length when it is not.
pub open spec fn place_of(ps: Seq<Page>, url: Seq<char>) -> int
    decreases ps.len(),
{
    if ps.len() == 0 || ps[0].url == url {
        0
    } else {
        1 + place_of(ps.drop_first(), url)
    }
}

/// What [`place_of`] is: the first place with that url.
pub proof fn lemma_place_of(ps: Seq<Page>, url: Seq<char>)
    ensures
        0 <= place_of(ps, url) <= ps.len(),
        place_of(ps, url) < ps.len() ==> ps[place_of(ps, url)].url == url,
        forall|j: int| 0 <= j < place_of(ps, url) ==> (#[trigger] ps[j]).url != url,
    decreases ps.len(),
{
    if ps.len() > 0 && ps[0].url != url {
        let rest = ps.drop_first();
        lemma_place_of(rest, url);
        let k = place_of(rest, url);
        if k < rest.len() {
            assert(ps[k + 1] == rest[k]);
        }
        assert forall|j: int| 0 <= j < k + 1 implies (#[trigger] ps[j]).url != url by {
            if j > 0 {
                assert(ps[j] == rest[j - 1]);
            }
        }
    }
}

/// The place with that url and none before it is [`place_of`].
proof fn lemma_place_is(ps: Seq<Page>, url: Seq<char>, i: int)
    requires
        0 <= i <= ps.len(),
        i < ps.len() ==> ps[i].url == url,
        forall|j: int| 0 <= j < i ==> (#[trigger] ps[j]).url != url,
    ensures
        place_of(ps, url) == i,
{
    lemma_place_of(ps, url);
    let k = place_of(ps, url);
    if k < i {
        assert(ps[k].url != url);
    }
    if i < k {
        assert(ps[i].url != url);
    }
}

/// The list without the page of a url.
pub open spec fn without(ps: Seq<Page>, url: Seq<char>) -> Seq<Page> {
    let i = place_of(ps, url);
    if i < ps.len() {
        ps.remove(i)
    } else {
        ps
    }
}

/// No url twice.
pub open spec fn one_per_url(ps: Seq<Page>) -> bool {
    forall|i: int, j: int|
        0 <= i < j < ps.len() ==> (#[trigger] ps[i]).url != (#[trigger] ps[j]).url
}

/// Every page can be written in the log.
pub open spec fn all_writable(ps: Seq<Page>) -> bool {
    forall|i: int| 0 <= i < ps.len() ==> writable(#[trigger] ps[i])
}

/// The pages of a list, one per url, are no longer the page of the url that
/// was taken out, and are otherwise what they were.
proof fn lemma_without(ps: Seq<Page>, url: Seq<char>)
    requires
        one_per_url(ps),
    ensures
        one_per_url(without(ps, url)),
        forall|j: int| 0 <= j < without(ps, url).len() ==> (#[trigger] without(ps, url)[j]).url != url,
        forall|j: int|
            0 <= j < without(ps, url).len() ==> exists|k: int|
                0 <= k < ps.len() && ps[k] == #[trigger] without(ps, url)[j],
        without(ps, url).len() <= ps.len(),
{
    lemma_place_of(ps, url);
    let i = place_of(ps, url);
    let w = without(ps, url);
    assert forall|j: int| 0 <= j < w.len() implies (#[trigger] w[j]).url != url && exists|k: int|
        0 <= k < ps.len() && ps[k] == w[j] by {
        if i < ps.len() && j >= i {
            assert(w[j] == ps[j + 1]);
            assert(ps[i].url != ps[j + 1].url);
        } else {
            assert(w[j] == ps[j]);
        }
    }
}

/// The lines of a log that are whole: each ended by a newline.
pub open spec fn whole_lines(log: Seq<char>) -> Seq<Seq<char>>
    decreases log.len(),
{
    let end = index_of(log, '\n');
    if end >= log.len() {
        Seq::empty()
    } else {
        proof {
            lemma_index_of(log, '\n');
        }
        seq![log.take(end)] + whole_lines(log.skip(end + 1))
    }
}

/// What stands in a log after its last newline.
pub open spec fn cut_short(log: Seq<char>) -> Seq<char>
    decreases log.len(),
{
    let end = index_of(log, '\n');
    if end >= log.len() {
        log
    } else {
        proof {
            lemma_index_of(log, '\n');
        }
        cut_short(log.skip(end + 1))
    }
}

/// How many times the page of a url has been visited, by the list.
pub open spec fn known_visits(ps: Seq<Page>, url: Seq<char>) -> u32 {
    let i = place_of(ps, url);
    if i < ps.len() {
        ps[i].visits
    } else {
        0
    }
}

/// The larger of two counts.
pub open spec fn larger(a: u32, b: u32) -> u32 {
    if a >= b {
        a
    } else {
        b
    }
}

/// The list after one more line of the log: its page at the front, with no
/// fewer visits than were known.
pub open spec fn after_line(ps: Seq<Page>, line: Seq<char>) -> Seq<Page> {
    match page_of(line) {
        Some(p) => seq![Page { visits: larger(known_visits(ps, p.url), p.visits), ..p }] + without(
            ps,
            p.url,
        ),
        None => ps,
    }
}

/// The list that lines of a log fold to, newest first.
pub open spec fn folded(lines: Seq<Seq<char>>) -> Seq<Page>
    decreases lines.len(),
{
    if lines.len() == 0 {
        Seq::empty()
    } else {
        after_line(folded(lines.drop_last()), lines.last())
    }
}

/// The first [`CAP`] of a list.
pub open spec fn capped(ps: Seq<Page>) -> Seq<Page> {
    if ps.len() > CAP {
        ps.take(CAP as int)
    } else {
        ps
    }
}

/// A page visited once more at `now`: its title is replaced when the new one
/// says anything.
pub open spec fn visited_again(p: Page, title: Seq<char>, now: u64) -> Page {
    let said = trim(sanitized(title));
    Page {
        url: p.url,
        title: if said.len() > 0 {
            said
        } else {
            p.title
        },
        visits: if p.visits < u32::MAX {
            (p.visits + 1) as u32
        } else {
            p.visits
        },
        last: now,
    }
}

/// The page that a visit to `url` makes: the one that is known, or a new one,
/// visited once more.
pub open spec fn page_visited(
    ps: Seq<Page>,
    url: Seq<char>,
    title: Seq<char>,
    now: u64,
) -> Page {
    let i = place_of(ps, url);
    let known = if i < ps.len() {
        ps[i]
    } else {
        Page { url, title: Seq::empty(), visits: 0, last: now }
    };
    visited_again(known, title, now)
}

/// The list after a visit: the page at the front, the rest as they were, and
/// no more than [`CAP`] of them.
pub open spec fn after_visit(
    ps: Seq<Page>,
    url: Seq<char>,
    title: Seq<char>,
    now: u64,
) -> Seq<Page> {
    if recordable(url) {
        capped(seq![page_visited(ps, url, title, now)] + without(ps, url))
    } else {
        ps
    }
}

/// The list as a log, oldest first.
pub open spec fn log_of(ps: Seq<Page>) -> Seq<char>
    decreases ps.len(),
{
    if ps.len() == 0 {
        Seq::empty()
    } else {
        log_of(ps.drop_first()) + line_of(ps[0]).push('\n')
    }
}

// ---- completing ----

/// A page whose key goes on from `wanted`.
pub open spec fn goes_on(p: Page, wanted: Seq<char>) -> bool {
    key_of(p.url).len() > wanted.len() && starts(key_of(p.url), wanted)
}

/// A page visited at least as often as another, and as lately if as often.
pub open spec fn at_least(a: Page, b: Page) -> bool {
    a.visits > b.visits || (a.visits == b.visits && a.last >= b.last)
}

/// Of the pages that go on from `wanted`, the most visited, of those the one
/// visited last, and of those the first.
pub open spec fn best_of(ps: Seq<Page>, wanted: Seq<char>) -> Option<Page>
    decreases ps.len(),
{
    if ps.len() == 0 {
        None
    } else {
        let before = best_of(ps.drop_last(), wanted);
        if !goes_on(ps.last(), wanted) {
            before
        } else {
            match before {
                Some(b) => if at_least(b, ps.last()) {
                    Some(b)
                } else {
                    Some(ps.last())
                },
                None => Some(ps.last()),
            }
        }
    }
}

/// Some character is white space.
pub open spec fn has_space(s: Seq<char>) -> bool {
    exists|i: int| 0 <= i < s.len() && is_space(#[trigger] s[i])
}

/// The rest of a url, to be offered after what was typed.
pub open spec fn completion(ps: Seq<Page>, typed: Seq<char>) -> Option<Seq<char>> {
    let wanted = key_of(typed);
    if has_space(typed) || wanted.len() == 0 {
        None
    } else {
        match best_of(ps, wanted) {
            Some(p) => Some(p.url.skip((prefix_chars(p.url) + wanted.len()) as int)),
            None => None,
        }
    }
}

// ---- ranking ----

/// How well a page matches: 0 for a key that starts with `wanted`, 1 for one
/// that has it anywhere, 2 for a title, in lower case, that has `words`, 3 for
/// none of these.
pub open spec fn tier(
    key: Seq<char>,
    title: Seq<char>,
    wanted: Seq<char>,
    words: Seq<char>,
) -> int {
    if starts(key, wanted) {
        0
    } else if holds(key, wanted) {
        1
    } else if holds(title, words) {
        2
    } else {
        3
    }
}

/// The places in `tiers` that hold `t`, in order.
pub open spec fn of_tier(tiers: Seq<int>, t: int) -> Seq<int>
    decreases tiers.len(),
{
    if tiers.len() == 0 {
        Seq::empty()
    } else {
        let before = of_tier(tiers.drop_last(), t);
        if tiers.last() == t {
            before.push(tiers.len() - 1)
        } else {
            before
        }
    }
}

/// The places of what matches, best first: by tier, and in order within each.
pub open spec fn by_tier(tiers: Seq<int>) -> Seq<int> {
    of_tier(tiers, 0) + of_tier(tiers, 1) + of_tier(tiers, 2)
}

/// How well each of some keys, and of some titles in lower case, matches.
pub open spec fn levels(
    keys: Seq<Seq<char>>,
    titles: Seq<Seq<char>>,
    wanted: Seq<char>,
    words: Seq<char>,
) -> Seq<int> {
    Seq::new(keys.len(), |i: int| tier(keys[i], titles[i], wanted, words))
}

/// How well each of some keys and titles matches what was typed, whatever its
/// case.
pub open spec fn tiers_of(
    keys: Seq<Seq<char>>,
    titles: Seq<Seq<char>>,
    typed: Seq<char>,
) -> Seq<int> {
    levels(
        keys,
        titles.map_values(|title: Seq<char>| lowered(title)),
        key_of(trim(typed)),
        lowered(trim(typed)),
    )
}

/// The places worth walking for what was typed, best first: every place, in
/// order, when nothing was.
pub open spec fn ranked(
    keys: Seq<Seq<char>>,
    titles: Seq<Seq<char>>,
    typed: Seq<char>,
) -> Seq<int> {
    if trim(typed).len() == 0 {
        Seq::new(keys.len(), |i: int| i)
    } else {
        by_tier(tiers_of(keys, titles, typed))
    }
}

/// The keys of some pages.
pub open spec fn keys_of(ps: Seq<Page>) -> Seq<Seq<char>> {
    ps.map_values(|p: Page| key_of(p.url))
}

/// The titles of some pages.
pub open spec fn titles_of(ps: Seq<Page>) -> Seq<Seq<char>> {
    ps.map_values(|p: Page| p.title)
}

/// The pages worth walking for what was typed, best first.
pub open spec fn matching(ps: Seq<Page>, typed: Seq<char>) -> Seq<Page> {
    ranked(keys_of(ps), titles_of(ps), typed).map_values(|i: int| ps[i])
}

/// The places of what matches, best first, of some keys and of some titles in
/// lower case: the keys that start with `wanted`, then those that have it
/// anywhere, then the titles that have `words`, in order within each.
pub fn rank(
    keys: &Vec<Vec<char>>,
    titles: &Vec<Vec<char>>,
    wanted: &[char],
    words: &[char],
) -> (r: Vec<usize>)
    requires
        keys@.len() == titles@.len(),
    ensures
        places(r@) == by_tier(levels(texts(keys@), texts(titles@), wanted@, words@)),
        forall|k: int| 0 <= k < r@.len() ==> (#[trigger] r@[k]) < keys@.len(),
{
    let ghost all = levels(texts(keys@), texts(titles@), wanted@, words@);
    let mut order: Vec<usize> = Vec::new();
    let mut found: Vec<u8> = Vec::new();
    let mut i: usize = 0;
    while i < keys.len()
        invariant
            i <= keys@.len(),
            keys@.len() == titles@.len(),
            found@.len() == i,
            all == levels(texts(keys@), texts(titles@), wanted@, words@),
            forall|k: int| 0 <= k < i ==> (#[trigger] found@[k]) as int == all[k],
        decreases keys@.len() - i,
    {
        let key = keys[i].as_slice();
        proof {
            assert(texts(keys@)[i as int] == keys@[i as int]@);
            assert(texts(titles@)[i as int] == titles@[i as int]@);
        }
        if starts_with(key, wanted) {
            found.push(0);
        } else if contains(key, wanted) {
            found.push(1);
        } else if contains(titles[i].as_slice(), words) {
            found.push(2);
        } else {
            found.push(3);
        }
        i += 1;
    }
    let mut t: u8 = 0;
    proof {
        assert(all.len() == found@.len());
    }
    while t < 3
        invariant
            t <= 3,
            found@.len() == all.len() == keys@.len(),
            forall|k: int| 0 <= k < found@.len() ==> (#[trigger] found@[k]) as int == all[k],
            places(order@) == up_to_tier(all, t as int),
            forall|k: int| 0 <= k < order@.len() ==> (#[trigger] order@[k]) < keys@.len(),
        decreases 3 - t,
    {
        let ghost before = places(order@);
        let mut j: usize = 0;
        proof {
            assert(all.take(0) =~= Seq::<int>::empty());
            assert(before + of_tier(all.take(0), t as int) =~= before);
        }
        while j < found.len()
            invariant
                j <= found@.len(),
                t < 3,
                found@.len() == all.len() == keys@.len(),
                forall|k: int| 0 <= k < found@.len() ==> (#[trigger] found@[k]) as int == all[k],
                places(order@) == before + of_tier(all.take(j as int), t as int),
                forall|k: int| 0 <= k < order@.len() ==> (#[trigger] order@[k]) < keys@.len(),
            decreases found@.len() - j,
        {
            let ghost now = places(order@);
            proof {
                assert(all.take(j + 1).drop_last() =~= all.take(j as int));
                assert(all.take(j + 1).last() == all[j as int]);
            }
            if found[j] == t {
                order.push(j);
                proof {
                    assert(places(order@) =~= now.push(j as int));
                    assert(places(order@) =~= before + of_tier(all.take(j + 1), t as int));
                }
            }
            j += 1;
        }
        proof {
            assert(all.take(j as int) =~= all);
        }
        t += 1;
    }
    proof {
        reveal_with_fuel(up_to_tier, 4);
        assert(places(order@) =~= by_tier(all));
    }
    order
}

/// The places worth walking for what was typed, best first.
///
/// Three tiers, in order within each: keys that start with what was typed,
/// then keys that have it anywhere, then titles that have it. Nothing typed is
/// every place.
pub fn tiers(keys: &Vec<Vec<char>>, titles: &Vec<String>, typed: &str) -> (r: Vec<usize>)
    requires
        keys@.len() == titles@.len(),
    ensures
        r@.len() == ranked(texts(keys@), strings(titles@), typed@).len(),
        forall|k: int|
            0 <= k < r@.len() ==> (#[trigger] r@[k]) as int == ranked(
                texts(keys@),
                strings(titles@),
                typed@,
            )[k],
        forall|k: int| 0 <= k < r@.len() ==> (#[trigger] r@[k]) < keys@.len(),
{
    let all = chars_of(typed);
    let typed_chars = trim_chars(all.as_slice());
    let mut i: usize = 0;
    if typed_chars.len() == 0 {
        let mut order: Vec<usize> = Vec::new();
        while i < keys.len()
            invariant
                i <= keys@.len(),
                order@.len() == i,
                forall|k: int| 0 <= k < i ==> (#[trigger] order@[k]) as int == k,
            decreases keys@.len() - i,
        {
            order.push(i);
            i += 1;
        }
        return order;
    }
    let wanted = key_chars(typed_chars);
    let words = chars_of(lowercase_of(string_of(typed_chars).as_str()).as_str());
    let mut folded: Vec<Vec<char>> = Vec::new();
    while i < titles.len()
        invariant
            i <= titles@.len(),
            folded@.len() == i,
            forall|k: int| 0 <= k < i ==> (#[trigger] folded@[k])@ == lowered(titles@[k]@),
        decreases titles@.len() - i,
    {
        folded.push(chars_of(lowercase_of(titles[i].as_str()).as_str()));
        i += 1;
    }
    let order = rank(keys, &folded, wanted.as_slice(), words.as_slice());
    proof {
        let lower = strings(titles@).map_values(|title: Seq<char>| lowered(title));
        assert(texts(folded@) =~= lower) by {
            assert forall|k: int| 0 <= k < folded@.len() implies texts(folded@)[k] == lower[k] by {
                assert(folded@[k]@ == lowered(titles@[k]@));
                assert(strings(titles@)[k] == titles@[k]@);
            }
        }
        assert forall|k: int| 0 <= k < order@.len() implies (#[trigger] order@[k]) as int == ranked(
            texts(keys@),
            strings(titles@),
            typed@,
        )[k] by {
            assert(places(order@)[k] == order@[k] as int);
        }
        assert(places(order@).len() == order@.len());
    }
    order
}

/// What is of the first `t` tiers, best first.
pub open spec fn up_to_tier(tiers: Seq<int>, t: int) -> Seq<int>
    decreases t,
{
    if t <= 0 {
        Seq::empty()
    } else {
        up_to_tier(tiers, t - 1) + of_tier(tiers, t - 1)
    }
}

/// Places as mathematical integers.
pub open spec fn places(order: Seq<usize>) -> Seq<int> {
    order.map_values(|i: usize| i as int)
}

/// The texts that some characters are.
pub open spec fn texts(v: Seq<Vec<char>>) -> Seq<Seq<char>> {
    v.map_values(|t: Vec<char>| t@)
}

/// The texts that some strings are.
pub open spec fn strings(v: Seq<String>) -> Seq<Seq<char>> {
    v.map_values(|t: String| t@)
}


// ---- the history ----

/// The pages visited, newest first, one entry per url.
#[derive(Debug)]
pub struct History {
    /// Newest first, one per url, at most [`CAP`].
    entries: Vec<Entry>,
    /// Where the log is, or `None` for a history that is never written.
    pub path: Option<String>,
}

impl View for History {
    type V = Seq<Page>;

    closed spec fn view(&self) -> Seq<Page> {
        pages(self.entries@)
    }
}

impl History {
    /// One entry per url, at most [`CAP`], each one that can be written.
    pub open spec fn wf(&self) -> bool {
        one_per_url(self@) && self@.len() <= CAP && all_writable(self@)
    }

    /// Where the log is, when there is one.
    pub closed spec fn log_path(&self) -> Option<Seq<char>> {
        match self.path {
            Some(path) => Some(path@),
            None => None,
        }
    }

    /// A history that is never written anywhere: a temporary profile's.
    pub fn in_memory() -> (r: History)
        ensures
            r.wf(),
            r@ == Seq::<Page>::empty(),
            r.log_path() is None,
    {
        let r = History { entries: Vec::new(), path: None };
        proof {
            assert(r@ =~= Seq::empty());
        }
        r
    }

    /// The history that the log at `path` folds to, and whether the log is to
    /// be written again.
    ///
    /// A line that does not parse is skipped, as is a last line with no
    /// newline after it. The log is to be written again when it has grown to
    /// [`COMPACT_AT`] lines, or its last line was cut short.
    pub fn load(log: &str, path: String) -> (r: (History, bool))
        ensures
            r.0.wf(),
            r.0@ == capped(folded(whole_lines(log@))),
            r.0.log_path() == Some(path@),
            r.1 == outgrown(log@),
            r.1 == (whole_lines(log@).len() >= COMPACT_AT || cut_short(log@).len() > 0),
    {
        let log_chars = chars_of(log);
        let mut entries: Vec<Entry> = Vec::new();
        let mut at: usize = 0;
        let mut count: usize = 0;
        let ghost text = log@;
        let ghost mut seen: Seq<Seq<char>> = Seq::empty();
        proof {
            assert(text.skip(0) =~= text);
            assert(seen + whole_lines(text) =~= whole_lines(text));
            assert(pages(entries@) =~= folded(seen));
        }
        loop
            invariant
                text == log_chars@,
                at <= text.len(),
                count == seen.len(),
                count <= at,
                whole_lines(text) == seen + whole_lines(text.skip(at as int)),
                cut_short(text) == cut_short(text.skip(at as int)),
                pages(entries@) == folded(seen),
                one_per_url(folded(seen)),
                all_writable(folded(seen)),
            ensures
                whole_lines(text) == seen,
                cut_short(text).len() == text.len() - at,
            decreases text.len() - at,
        {
            let rest = slice_subrange(log_chars.as_slice(), at, log_chars.len());
            let end = position(rest, '\n');
            proof {
                assert(rest@ =~= text.skip(at as int));
            }
            if end >= rest.len() {
                proof {
                    assert(seen + Seq::<Seq<char>>::empty() =~= seen);
                }
                break ;
            }
            let line = slice_subrange(rest, 0, end);
            proof {
                assert(line@ =~= rest@.take(end as int));
                assert(rest@.skip(end + 1) =~= text.skip(at + end + 1));
                let more = whole_lines(text.skip(at + end + 1));
                assert(seen + (seq![line@] + more) =~= seen.push(line@) + more);
                assert(seen.push(line@).drop_last() =~= seen);
                assert(seen.push(line@).last() == line@);
                lemma_after_line_keeps(folded(seen), line@);
            }
            match History::parse_chars(line) {
                Some(entry) => {
                    fold_in(&mut entries, entry);
                },
                None => {},
            }
            proof {
                seen = seen.push(line@);
            }
            count += 1;
            at = at + end + 1;
        }
        let short = at < log_chars.len();
        if entries.len() > CAP {
            entries.truncate(CAP);
        }
        proof {
            assert(pages(entries@) =~= capped(folded(seen)));
        }
        (History { entries, path: Some(path) }, count >= COMPACT_AT || short)
    }

    /// One line of the log, or `None` for one that is not.
    fn parse_chars(line: &[char]) -> (r: Option<Entry>)
        ensures
            match r {
                Some(e) => page_of(line@) == Some(e@),
                None => page_of(line@) is None,
            },
    {
        let first = position(line, '\t');
        if first >= line.len() {
            return None;
        }
        let rest = slice_subrange(line, first + 1, line.len());
        let second = position(rest, '\t');
        proof {
            assert(rest@ =~= line@.skip(first + 1));
        }
        if second >= rest.len() {
            return None;
        }
        let more = slice_subrange(rest, second + 1, rest.len());
        let third = position(more, '\t');
        proof {
            assert(more@ =~= rest@.skip(second + 1));
        }
        if third >= more.len() {
            return None;
        }
        let url = slice_subrange(more, 0, third);
        let title = slice_subrange(more, third + 1, more.len());
        proof {
            assert(line@.subrange(0, first as int) =~= line@.take(first as int));
            assert(rest@.subrange(0, second as int) =~= rest@.take(second as int));
            assert(url@ =~= more@.take(third as int));
            assert(title@ =~= more@.skip(third + 1));
        }
        let last = match parse_number(slice_subrange(line, 0, first), u64::MAX) {
            Some(n) => n,
            None => return None,
        };
        let visits = match parse_number(slice_subrange(rest, 0, second), u32::MAX as u64) {
            Some(n) => n,
            None => return None,
        };
        if !records_chars(url) {
            return None;
        }
        let title = sanitize_chars(title);
        Some(
            Entry {
                url: string_of(url),
                title: string_of(title.as_slice()),
                visits: visits as u32,
                last,
            },
        )
    }

    /// One line of the log, or `None` for one that is not.
    pub fn parse_line(line: &str) -> (r: Option<Entry>)
        ensures
            match r {
                Some(e) => page_of(line@) == Some(e@),
                None => page_of(line@) is None,
            },
    {
        let line = chars_of(line);
        History::parse_chars(line.as_slice())
    }

    /// Record a visit to `url`, titled `title`, at `now`: the entry goes to
    /// the front with one more visit, and its title is replaced when the new
    /// one says anything. What comes back is the line to add to the log, if
    /// there is one.
    pub fn visited(&mut self, url: &str, title: &str, now: u64) -> (r: Option<String>)
        requires
            old(self).wf(),
        ensures
            final(self).wf(),
            final(self)@ == after_visit(old(self)@, url@, title@, now),
            final(self).log_path() == old(self).log_path(),
            match r {
                Some(line) => recordable(url@) && old(self).log_path() is Some && line@ == line_of(
                    page_visited(old(self)@, url@, title@, now),
                ).push('\n'),
                None => !recordable(url@) || old(self).log_path() is None,
            },
    {
        let url_chars = chars_of(url);
        if !records_chars(url_chars.as_slice()) {
            return None;
        }
        let title_chars = chars_of(title);
        let clean = sanitize_chars(title_chars.as_slice());
        let said = trim_chars(clean.as_slice());
        let ghost before = self@;
        let at = find_url(&self.entries, url);
        let mut entry = if at < self.entries.len() {
            self.entries.remove(at)
        } else {
            Entry { url: url.to_owned(), title: String::new(), visits: 0, last: now }
        };
        proof {
            assert(pages(self.entries@) =~= without(before, url@));
            lemma_without(before, url@);
            lemma_place_of(before, url@);
        }
        entry.visits = entry.visits.saturating_add(1);
        entry.last = now;
        if said.len() > 0 {
            entry.title = string_of(said);
        }
        proof {
            assert(entry@ =~= page_visited(before, url@, title@, now));
            lemma_visit_is_writable(before, url@, title@, now);
        }
        let line = entry.line();
        let ghost rest = self.entries@;
        self.entries.insert(0, entry);
        proof {
            let front = seq![page_visited(before, url@, title@, now)] + without(before, url@);
            assert(pages(self.entries@) =~= front);
            lemma_front_keeps(page_visited(before, url@, title@, now), without(before, url@));
        }
        if self.entries.len() > CAP {
            self.entries.truncate(CAP);
        }
        proof {
            assert(self@ =~= after_visit(before, url@, title@, now));
        }
        match &self.path {
            Some(_) => Some(line),
            None => None,
        }
    }

    /// The history as a fresh log, oldest first so that adding to it goes on
    /// in order.
    pub fn compacted(&self) -> (r: String)
        ensures
            r@ == log_of(self@),
    {
        let mut s = String::new();
        let mut n: usize = self.entries.len();
        proof {
            assert(self@.skip(n as int) =~= Seq::empty());
        }
        while n > 0
            invariant
                n <= self.entries@.len(),
                self@ == pages(self.entries@),
                s@ == log_of(self@.skip(n as int)),
            decreases n,
        {
            n -= 1;
            let line = self.entries[n].line();
            s.append(line.as_str());
            proof {
                assert(self@.skip(n as int).drop_first() =~= self@.skip(n + 1));
                assert(self@.skip(n as int)[0] == self.entries@[n as int]@);
            }
        }
        proof {
            assert(self@.skip(0) =~= self@);
        }
        s
    }

    /// Every page, newest first.
    pub fn entries(&self) -> (r: &[Entry])
        ensures
            pages(r@) == self@,
    {
        self.entries.as_slice()
    }

    /// The rest of a url that starts with what has been typed, to be offered
    /// after it; or `None`.
    ///
    /// Of the urls that match and are longer than what is typed, the most
    /// visited, and of those the newest. What is offered is the url's own
    /// characters after the match. Nothing is offered for text with a space in
    /// it.
    pub fn complete(&self, typed: &str) -> (r: Option<String>)
        ensures
            match r {
                Some(rest) => completion(self@, typed@) == Some(rest@),
                None => completion(self@, typed@) is None,
            },
    {
        let typed_chars = chars_of(typed);
        let mut i: usize = 0;
        while i < typed_chars.len()
            invariant
                i <= typed_chars@.len(),
                typed_chars@ == typed@,
                forall|j: int| 0 <= j < i ==> !is_space(#[trigger] typed_chars@[j]),
            decreases typed_chars@.len() - i,
        {
            if is_space_char(typed_chars[i]) {
                proof {
                    assert(is_space(typed@[i as int]));
                }
                return None;
            }
            i += 1;
        }
        let wanted = key_chars(typed_chars.as_slice());
        if wanted.len() == 0 {
            return None;
        }
        let mut best: Option<usize> = None;
        let mut n: usize = 0;
        proof {
            assert(self@.take(0) =~= Seq::<Page>::empty());
        }
        while n < self.entries.len()
            invariant
                n <= self.entries@.len(),
                self@ == pages(self.entries@),
                best_of(self@.take(n as int), wanted@) == (match best {
                    Some(b) => Some(self@[b as int]),
                    None => None,
                }),
                best matches Some(b) ==> b < n,
                best matches Some(b) ==> goes_on(self@[b as int], wanted@),
            decreases self.entries@.len() - n,
        {
            let entry = &self.entries[n];
            let url = chars_of(entry.url.as_str());
            let known = key_chars(url.as_slice());
            proof {
                assert(self@.take(n + 1).drop_last() =~= self@.take(n as int));
                assert(self@.take(n + 1).last() == entry@);
            }
            if known.len() > wanted.len() && starts_with(known.as_slice(), wanted.as_slice()) {
                best = match best {
                    Some(b) => {
                        let other = &self.entries[b];
                        if other.visits > entry.visits || (other.visits == entry.visits
                            && other.last >= entry.last) {
                            Some(b)
                        } else {
                            Some(n)
                        }
                    },
                    None => Some(n),
                };
            }
            n += 1;
        }
        proof {
            assert(self@.take(n as int) =~= self@);
        }
        match best {
            Some(b) => {
                let url = chars_of(self.entries[b].url.as_str());
                proof {
                    assert(url@ == self@[b as int].url);
                    lemma_prefix_inside(url@);
                }
                let total: usize = url.len();
                let from: usize = prefix_len(url.as_slice()) + wanted.len();
                let rest = slice_subrange(url.as_slice(), from, total);
                proof {
                    assert(rest@ =~= url@.skip(from as int));
                }
                Some(string_of(rest))
            },
            None => None,
        }
    }

    /// The entries worth walking with Up for what has been typed, best first:
    /// urls that start with it, then urls that have it anywhere, then pages
    /// whose title has it, newest first within each. Nothing typed is every
    /// page.
    pub fn matches(&self, typed: &str) -> (r: Vec<&Entry>)
        ensures
            r@.len() == matching(self@, typed@).len(),
            forall|k: int| 0 <= k < r@.len() ==> (#[trigger] r@[k])@ == matching(self@, typed@)[k],
    {
        let mut keys: Vec<Vec<char>> = Vec::new();
        let mut titles: Vec<String> = Vec::new();
        let mut i: usize = 0;
        while i < self.entries.len()
            invariant
                i <= self.entries@.len(),
                self@ == pages(self.entries@),
                keys@.len() == i,
                titles@.len() == i,
                forall|k: int| 0 <= k < i ==> (#[trigger] keys@[k])@ == key_of(self@[k].url),
                forall|k: int| 0 <= k < i ==> (#[trigger] titles@[k])@ == self@[k].title,
            decreases self.entries@.len() - i,
        {
            let url = chars_of(self.entries[i].url.as_str());
            keys.push(key_chars(url.as_slice()));
            titles.push(self.entries[i].title.clone());
            i += 1;
        }
        proof {
            assert(texts(keys@) =~= keys_of(self@));
            assert(strings(titles@) =~= titles_of(self@));
        }
        let order = tiers(&keys, &titles, typed);
        let mut out: Vec<&Entry> = Vec::new();
        let mut j: usize = 0;
        while j < order.len()
            invariant
                j <= order@.len(),
                out@.len() == j,
                self@ == pages(self.entries@),
                order@.len() == matching(self@, typed@).len(),
                forall|k: int|
                    0 <= k < order@.len() ==> (#[trigger] order@[k]) < self.entries@.len(),
                forall|k: int|
                    0 <= k < order@.len() ==> self@[(#[trigger] order@[k]) as int] == matching(
                        self@,
                        typed@,
                    )[k],
                forall|k: int|
                    0 <= k < j ==> (#[trigger] out@[k])@ == matching(self@, typed@)[k],
            decreases order@.len() - j,
        {
            out.push(&self.entries[order[j]]);
            j += 1;
        }
        out
    }

    /// Whether a url is one to remember at all: a web page or a file, and
    /// nothing that could not be written as one field of one line.
    pub fn records(url: &str) -> (r: bool)
        ensures
            r == recordable(url@),
    {
        let url = chars_of(url);
        records_chars(url.as_slice())
    }
}

/// Where the entry of a url is: the length of the list when it is not there.
fn find_url(entries: &Vec<Entry>, url: &str) -> (i: usize)
    ensures
        i == place_of(pages(entries@), url@),
        i <= entries@.len(),
{
    let wanted = url.to_owned();
    let mut i: usize = 0;
    while i < entries.len()
        invariant
            i <= entries@.len(),
            wanted@ == url@,
            forall|j: int| 0 <= j < i ==> (#[trigger] pages(entries@)[j]).url != url@,
        decreases entries@.len() - i,
    {
        if entries[i].url == wanted {
            proof {
                lemma_place_is(pages(entries@), url@, i as int);
            }
            return i;
        }
        i += 1;
    }
    proof {
        lemma_place_is(pages(entries@), url@, i as int);
    }
    i
}

/// Put the entry of a line of the log at the front, with no fewer visits than
/// were known.
fn fold_in(entries: &mut Vec<Entry>, entry: Entry)
    ensures
        pages(final(entries)@) == seq![
            Page {
                visits: larger(known_visits(pages(old(entries)@), entry@.url), entry@.visits),
                ..entry@
            },
        ] + without(pages(old(entries)@), entry@.url),
{
    let ghost before = pages(entries@);
    let at = find_url(entries, entry.url.as_str());
    let mut entry = entry;
    if at < entries.len() {
        let known = entries.remove(at);
        if known.visits > entry.visits {
            entry.visits = known.visits;
        }
    }
    proof {
        assert(pages(entries@) =~= without(before, entry@.url));
    }
    let ghost rest = pages(entries@);
    let ghost front = entry@;
    entries.insert(0, entry);
    proof {
        assert(pages(entries@) =~= seq![front] + rest);
    }
}

// ---- what every operation keeps ----

/// A page put before others of other urls is one per url still.
proof fn lemma_front_keeps(p: Page, rest: Seq<Page>)
    requires
        one_per_url(rest),
        forall|j: int| 0 <= j < rest.len() ==> (#[trigger] rest[j]).url != p.url,
        writable(p),
        all_writable(rest),
    ensures
        one_per_url(seq![p] + rest),
        all_writable(seq![p] + rest),
        one_per_url(capped(seq![p] + rest)),
        all_writable(capped(seq![p] + rest)),
{
    let all = seq![p] + rest;
    assert forall|i: int, j: int| 0 <= i < j < all.len() implies (#[trigger] all[i]).url != (
    #[trigger] all[j]).url by {
        assert(all[j] == rest[j - 1]);
        if i > 0 {
            assert(all[i] == rest[i - 1]);
        }
    }
    assert forall|i: int| 0 <= i < all.len() implies writable(#[trigger] all[i]) by {
        if i > 0 {
            assert(all[i] == rest[i - 1]);
        }
    }
}

/// A line of the log keeps a list one per url, and writable.
proof fn lemma_after_line_keeps(ps: Seq<Page>, line: Seq<char>)
    requires
        one_per_url(ps),
        all_writable(ps),
    ensures
        one_per_url(after_line(ps, line)),
        all_writable(after_line(ps, line)),
{
    match page_of(line) {
        Some(p) => {
            let front = Page { visits: larger(known_visits(ps, p.url), p.visits), ..p };
            lemma_without(ps, p.url);
            let rest = without(ps, p.url);
            assert forall|j: int| 0 <= j < rest.len() implies writable(#[trigger] rest[j]) by {
                let k = choose|k: int| 0 <= k < ps.len() && ps[k] == rest[j];
                assert(writable(ps[k]));
            }
            let first = index_of(line, '\t');
            let after = line.skip(first + 1);
            let more = after.skip(index_of(after, '\t') + 1);
            law_sanitized_is_plain(more.skip(index_of(more, '\t') + 1));
            lemma_front_keeps(front, rest);
        },
        None => {},
    }
}

/// What a visit makes can be written in the log.
proof fn lemma_visit_is_writable(ps: Seq<Page>, url: Seq<char>, title: Seq<char>, now: u64)
    requires
        one_per_url(ps),
        all_writable(ps),
        recordable(url),
    ensures
        writable(page_visited(ps, url, title, now)),
        page_visited(ps, url, title, now).url == url,
        all_writable(without(ps, url)),
{
    lemma_place_of(ps, url);
    lemma_without(ps, url);
    let i = place_of(ps, url);
    if i < ps.len() {
        assert(writable(ps[i]));
    }
    let said = trim(sanitized(title));
    law_sanitized_is_plain(title);
    lemma_trimmed_is_plain(sanitized(title));
    let rest = without(ps, url);
    assert forall|j: int| 0 <= j < rest.len() implies writable(#[trigger] rest[j]) by {
        let k = choose|k: int| 0 <= k < ps.len() && ps[k] == rest[j];
        assert(writable(ps[k]));
    }
}

// ---- walking ----

/// Up and Down through [`History::matches`], remembering what was typed so
/// that Down past the newest puts it back.
#[derive(Debug, PartialEq, Eq)]
pub struct Walk {
    typed: String,
    urls: Vec<String>,
    /// Which of `urls` is in the bar, or `None` for what was typed.
    index: Option<usize>,
}

/// What a [`Walk`] is: what was typed, what matches it, and how far up the
/// walk is, 0 being what was typed.
#[verifier::ext_equal]
pub struct Stroll {
    pub typed: Seq<char>,
    pub urls: Seq<Seq<char>>,
    pub height: int,
}

impl Stroll {
    /// The walk stands on what was typed or on one of the urls.
    pub open spec fn valid(self) -> bool {
        0 <= self.height <= self.urls.len()
    }

    /// What the walk stands on.
    pub open spec fn here(self) -> Seq<char> {
        if self.height == 0 {
            self.typed
        } else {
            self.urls[self.height - 1]
        }
    }

    /// One older, unless this is the oldest.
    pub open spec fn higher(self) -> Stroll {
        if self.height < self.urls.len() {
            Stroll { height: self.height + 1, ..self }
        } else {
            self
        }
    }

    /// One newer, unless this is what was typed.
    pub open spec fn lower(self) -> Stroll {
        if self.height > 0 {
            Stroll { height: self.height - 1, ..self }
        } else {
            self
        }
    }
}

impl View for Walk {
    type V = Stroll;

    closed spec fn view(&self) -> Stroll {
        Stroll {
            typed: self.typed@,
            urls: strings(self.urls@),
            height: match self.index {
                Some(i) => i + 1,
                None => 0,
            },
        }
    }
}

/// The urls of some pages.
pub open spec fn urls_of(ps: Seq<Page>) -> Seq<Seq<char>> {
    ps.map_values(|p: Page| p.url)
}

impl Walk {
    /// The walk stands on what was typed or on one of the urls.
    pub open spec fn wf(&self) -> bool {
        self@.valid()
    }

    /// A walk through what matches `typed`, standing on `typed` itself.
    ///
    /// The matches are taken now and kept, so that the list does not change
    /// under the walk as the line it is walking changes the text.
    pub fn new(history: &History, typed: &str) -> (r: Walk)
        ensures
            r.wf(),
            r@ == (Stroll {
                typed: typed@,
                urls: urls_of(matching(history@, typed@)),
                height: 0,
            }),
    {
        let found = history.matches(typed);
        let mut urls: Vec<String> = Vec::new();
        let mut i: usize = 0;
        while i < found.len()
            invariant
                i <= found@.len(),
                urls@.len() == i,
                found@.len() == matching(history@, typed@).len(),
                forall|k: int|
                    0 <= k < found@.len() ==> (#[trigger] found@[k])@ == matching(
                        history@,
                        typed@,
                    )[k],
                forall|k: int|
                    0 <= k < i ==> (#[trigger] urls@[k])@ == matching(history@, typed@)[k].url,
            decreases found@.len() - i,
        {
            urls.push(found[i].url.clone());
            i += 1;
        }
        proof {
            assert(strings(urls@) =~= urls_of(matching(history@, typed@)));
        }
        Walk { typed: typed.to_owned(), urls, index: None }
    }

    /// One older, or `None` at the oldest, where the walk stays.
    pub fn up(&mut self) -> (r: Option<String>)
        requires
            old(self).wf(),
        ensures
            final(self).wf(),
            final(self)@ == old(self)@.higher(),
            match r {
                Some(url) => {
                    old(self)@.height < old(self)@.urls.len() && url@ == final(self)@.here()
                },
                None => old(self)@.height == old(self)@.urls.len(),
            },
    {
        let count: usize = self.urls.len();
        let next: usize = match self.index {
            Some(i) => i + 1,
            None => 0,
        };
        if next >= count {
            return None;
        }
        self.index = Some(next);
        Some(self.urls[next].clone())
    }

    /// One newer; past the newest, what was typed; `None` when that is already
    /// where the walk is.
    pub fn down(&mut self) -> (r: Option<String>)
        requires
            old(self).wf(),
        ensures
            final(self).wf(),
            final(self)@ == old(self)@.lower(),
            match r {
                Some(url) => old(self)@.height > 0 && url@ == final(self)@.here(),
                None => old(self)@.height == 0,
            },
    {
        match self.index {
            None => None,
            Some(i) => {
                if i == 0 {
                    self.index = None;
                    Some(self.typed.clone())
                } else {
                    self.index = Some(i - 1);
                    Some(self.urls[i - 1].clone())
                }
            },
        }
    }
}

// ---- laws ----

/// Down after an Up that moved stands where the Up started.
pub proof fn law_down_undoes_up(w: Stroll)
    requires
        w.valid(),
        w.height < w.urls.len(),
    ensures
        w.higher().lower() == w,
        w.higher().valid(),
{
}

/// A visit puts the page at the front with one more visit than before, and
/// changes nothing of the others but their places.
pub proof fn law_a_visit_moves_the_page_to_the_front(
    ps: Seq<Page>,
    url: Seq<char>,
    title: Seq<char>,
    now: u64,
)
    requires
        one_per_url(ps),
        recordable(url),
    ensures
        after_visit(ps, url, title, now).len() > 0,
        after_visit(ps, url, title, now)[0].url == url,
        after_visit(ps, url, title, now)[0].last == now,
        known_visits(ps, url) < u32::MAX ==> after_visit(ps, url, title, now)[0].visits
            == known_visits(ps, url) + 1,
        after_visit(ps, url, title, now).len() <= CAP,
        forall|j: int|
            1 <= j < after_visit(ps, url, title, now).len() ==> ps.contains(
                #[trigger] after_visit(ps, url, title, now)[j],
            ),
{
    lemma_place_of(ps, url);
    lemma_without(ps, url);
    let all = after_visit(ps, url, title, now);
    assert forall|j: int| 1 <= j < all.len() implies ps.contains(#[trigger] all[j]) by {
        assert(all[j] == without(ps, url)[j - 1]);
    }
}

/// A title that says nothing does not replace the one known.
pub proof fn law_an_empty_title_replaces_nothing(p: Page, title: Seq<char>, now: u64)
    requires
        trim(sanitized(title)).len() == 0,
    ensures
        visited_again(p, title, now).title == p.title,
{
}

/// A line of the log has no newline in it.
proof fn lemma_line_has_no_newline(p: Page)
    requires
        writable(p),
    ensures
        !line_of(p).contains('\n'),
{
    lemma_decimal(p.last as nat);
    lemma_decimal(p.visits as nat);
    let line = line_of(p);
    let a = decimal(p.last as nat);
    let b = decimal(p.visits as nat);
    if line.contains('\n') {
        let i = choose|i: int| 0 <= i < line.len() && line[i] == '\n';
        if i < a.len() {
            assert(is_digit(a[i]));
        } else if a.len() < i < a.len() + 1 + b.len() {
            assert(is_digit(b[i - a.len() - 1]));
        } else if i > a.len() + 1 + b.len() && i < a.len() + b.len() + 2 + p.url.len() {
            assert(plain(p.url[i - a.len() - b.len() - 2]));
        } else if i > a.len() + b.len() + 2 + p.url.len() {
            assert(plain(p.title[i - a.len() - b.len() - 3 - p.url.len()]));
        }
    }
}

/// A whole line added to a log of whole lines is one more whole line.
pub proof fn lemma_one_more_line(log: Seq<char>, line: Seq<char>)
    requires
        cut_short(log).len() == 0,
        !line.contains('\n'),
    ensures
        whole_lines(log + line.push('\n')) == whole_lines(log).push(line),
        cut_short(log + line.push('\n')).len() == 0,
    decreases log.len(),
{
    let all = log + line.push('\n');
    lemma_index_of(log, '\n');
    if log.len() == 0 {
        assert(all =~= line.push('\n'));
        assert forall|j: int| 0 <= j < line.len() implies all[j] != '\n' by {
            assert(line.contains(line[j]));
        }
        lemma_index_of_is(all, '\n', line.len() as int);
        let rest = all.skip(line.len() as int + 1);
        assert(rest =~= Seq::<char>::empty());
        assert(index_of(rest, '\n') == 0);
        assert(whole_lines(rest) =~= Seq::empty());
        assert(cut_short(rest) == rest);
        assert(all.take(line.len() as int) =~= line);
        assert(whole_lines(log) =~= Seq::empty());
        assert(whole_lines(all) =~= whole_lines(log).push(line));
    } else {
        let end = index_of(log, '\n');
        assert(end < log.len());
        assert forall|j: int| 0 <= j < end implies all[j] != '\n' by {
            assert(all[j] == log[j]);
        }
        lemma_index_of_is(all, '\n', end);
        let rest = log.skip(end + 1);
        assert(all.take(end) =~= log.take(end));
        assert(all.skip(end + 1) =~= rest + line.push('\n'));
        lemma_one_more_line(rest, line);
        assert(whole_lines(all) =~= whole_lines(log).push(line));
    }
}

/// A history written out as a fresh log reads back as the same history.
pub proof fn law_a_compacted_log_reads_back(ps: Seq<Page>)
    requires
        one_per_url(ps),
        all_writable(ps),
    ensures
        folded(whole_lines(log_of(ps))) == ps,
        cut_short(log_of(ps)).len() == 0,
    decreases ps.len(),
{
    if ps.len() == 0 {
        let log = log_of(ps);
        assert(index_of(log, '\n') == 0);
        assert(whole_lines(log) =~= Seq::empty());
        assert(folded(whole_lines(log)) =~= ps);
    } else {
        let rest = ps.drop_first();
        assert forall|i: int, j: int| 0 <= i < j < rest.len() implies (#[trigger] rest[i]).url != (
        #[trigger] rest[j]).url by {
            assert(rest[i] == ps[i + 1]);
            assert(rest[j] == ps[j + 1]);
        }
        assert forall|i: int| 0 <= i < rest.len() implies writable(#[trigger] rest[i]) by {
            assert(rest[i] == ps[i + 1]);
        }
        law_a_compacted_log_reads_back(rest);
        let p = ps[0];
        assert(writable(p));
        lemma_line_has_no_newline(p);
        lemma_one_more_line(log_of(rest), line_of(p));
        law_a_line_round_trips(p);
        let lines = whole_lines(log_of(rest)).push(line_of(p));
        assert(lines.drop_last() =~= whole_lines(log_of(rest)));
        assert forall|j: int| 0 <= j < rest.len() implies (#[trigger] rest[j]).url != p.url by {
            assert(rest[j] == ps[j + 1]);
        }
        lemma_place_is(rest, p.url, rest.len() as int);
        assert(after_line(rest, line_of(p)) =~= ps);
    }
}

/// The line that a visit adds to the log reads back as the visit.
pub proof fn law_a_visit_reads_back(
    log: Seq<char>,
    url: Seq<char>,
    title: Seq<char>,
    now: u64,
)
    requires
        cut_short(log).len() == 0,
        recordable(url),
        one_per_url(folded(whole_lines(log))),
        all_writable(folded(whole_lines(log))),
    ensures
        capped(
            folded(
                whole_lines(
                    log + line_of(
                        page_visited(folded(whole_lines(log)), url, title, now),
                    ).push('\n'),
                ),
            ),
        ) == after_visit(folded(whole_lines(log)), url, title, now),
{
    let lines = whole_lines(log);
    let ps = folded(lines);
    let p = page_visited(ps, url, title, now);
    lemma_visit_is_writable(ps, url, title, now);
    lemma_line_has_no_newline(p);
    lemma_one_more_line(log, line_of(p));
    law_a_line_round_trips(p);
    assert(lines.push(line_of(p)).drop_last() =~= lines);
    lemma_place_of(ps, url);
    assert(Page { visits: larger(known_visits(ps, p.url), p.visits), ..p } =~= p);
}

/// What a log folds to is one per url, and can be written again.
pub proof fn law_a_log_folds_to_one_per_url(lines: Seq<Seq<char>>)
    ensures
        one_per_url(folded(lines)),
        all_writable(folded(lines)),
    decreases lines.len(),
{
    if lines.len() > 0 {
        law_a_log_folds_to_one_per_url(lines.drop_last());
        lemma_after_line_keeps(folded(lines.drop_last()), lines.last());
    }
}

/// The best of some pages is one of them that goes on from what is wanted, and
/// no other that does was visited more.
proof fn lemma_best_of(ps: Seq<Page>, wanted: Seq<char>)
    ensures
        match best_of(ps, wanted) {
            Some(b) => ps.contains(b) && goes_on(b, wanted) && forall|i: int|
                0 <= i < ps.len() && goes_on(#[trigger] ps[i], wanted) ==> at_least(b, ps[i]),
            None => forall|i: int| 0 <= i < ps.len() ==> !goes_on(#[trigger] ps[i], wanted),
        },
    decreases ps.len(),
{
    if ps.len() > 0 {
        let before = ps.drop_last();
        lemma_best_of(before, wanted);
        match best_of(ps, wanted) {
            Some(b) => {
                if before.contains(b) {
                    let k = choose|k: int| 0 <= k < before.len() && before[k] == b;
                    assert(ps[k] == b);
                } else {
                    assert(ps[ps.len() - 1] == b);
                }
                assert forall|i: int| 0 <= i < ps.len() && goes_on(
                    #[trigger] ps[i],
                    wanted,
                ) implies at_least(b, ps[i]) by {
                    if i < before.len() {
                        assert(before[i] == ps[i]);
                    }
                }
            },
            None => {
                assert forall|i: int| 0 <= i < ps.len() implies !goes_on(
                    #[trigger] ps[i],
                    wanted,
                ) by {
                    if i < before.len() {
                        assert(before[i] == ps[i]);
                    }
                }
            },
        }
    }
}

/// What is offered is the rest of a known url that goes on from what was
/// typed, and no other that does has been visited more.
pub proof fn law_a_completion_goes_on_from_what_was_typed(ps: Seq<Page>, typed: Seq<char>)
    ensures
        completion(ps, typed) matches Some(rest) ==> exists|i: int|
            0 <= i < ps.len() && key_of((#[trigger] ps[i]).url) == key_of(typed) + lower_all(rest)
                && rest.len() > 0 && forall|j: int|
                0 <= j < ps.len() && goes_on(#[trigger] ps[j], key_of(typed)) ==> at_least(
                    ps[i],
                    ps[j],
                ),
{
    let wanted = key_of(typed);
    lemma_best_of(ps, wanted);
    if let Some(rest) = completion(ps, typed) {
        let b = best_of(ps, wanted)->0;
        let i = choose|i: int| 0 <= i < ps.len() && ps[i] == b;
        lemma_prefix_inside(b.url);
        let known = key_of(b.url);
        assert(known.subrange(0, wanted.len() as int) == wanted);
        assert(known =~= wanted + lower_all(rest)) by {
            assert(known =~= known.subrange(0, wanted.len() as int) + known.skip(
                wanted.len() as int,
            ));
            assert(known.skip(wanted.len() as int) =~= lower_all(rest));
        }
        assert(key_of(ps[i].url) == key_of(typed) + lower_all(rest));
    }
}

/// The places of one tier are those that hold it.
proof fn lemma_of_tier(tiers: Seq<int>, t: int, i: int)
    ensures
        of_tier(tiers, t).contains(i) <==> 0 <= i < tiers.len() && tiers[i] == t,
    decreases tiers.len(),
{
    if tiers.len() > 0 {
        let before = tiers.drop_last();
        lemma_of_tier(before, t, i);
        let last = tiers.len() - 1;
        let known = of_tier(before, t);
        let all = of_tier(tiers, t);
        if known.contains(i) {
            let k = choose|k: int| 0 <= k < known.len() && known[k] == i;
            assert(all[k] == i);
        }
        if all.contains(i) && !known.contains(i) {
            let k = choose|k: int| 0 <= k < all.len() && all[k] == i;
            if k < known.len() {
                assert(known[k] == i);
            }
        }
        if i == last && tiers[last] == t {
            assert(all[all.len() - 1] == i);
        }
    }
}

/// What is walked is everything that matches what was typed, and nothing else.
pub proof fn law_a_walk_is_of_all_that_match(
    keys: Seq<Seq<char>>,
    titles: Seq<Seq<char>>,
    typed: Seq<char>,
    i: int,
)
    requires
        keys.len() == titles.len(),
        trim(typed).len() > 0,
    ensures
        ranked(keys, titles, typed).contains(i) <==> 0 <= i < keys.len() && (holds(
            keys[i],
            key_of(trim(typed)),
        ) || holds(lowered(titles[i]), lowered(trim(typed)))),
{
    let ts = tiers_of(keys, titles, typed);
    lemma_of_tier(ts, 0, i);
    lemma_of_tier(ts, 1, i);
    lemma_of_tier(ts, 2, i);
    let a = of_tier(ts, 0);
    let b = of_tier(ts, 1);
    let c = of_tier(ts, 2);
    let all = by_tier(ts);
    assert(all.contains(i) <==> a.contains(i) || b.contains(i) || c.contains(i)) by {
        if all.contains(i) {
            let k = choose|k: int| 0 <= k < all.len() && all[k] == i;
            if k < a.len() {
                assert(a[k] == i);
            } else if k < a.len() + b.len() {
                assert(b[k - a.len()] == i);
            } else {
                assert(c[k - a.len() - b.len()] == i);
            }
        }
        if a.contains(i) {
            let k = choose|k: int| 0 <= k < a.len() && a[k] == i;
            assert(all[k] == i);
        }
        if b.contains(i) {
            let k = choose|k: int| 0 <= k < b.len() && b[k] == i;
            assert(all[a.len() + k] == i);
        }
        if c.contains(i) {
            let k = choose|k: int| 0 <= k < c.len() && c[k] == i;
            assert(all[a.len() + b.len() + k] == i);
        }
    }
    if 0 <= i < keys.len() && starts(keys[i], key_of(trim(typed))) {
        assert(crate::strings::occurs_at(keys[i], key_of(trim(typed)), 0));
    }
}

/// Something is offered exactly when what was typed has no white space in it
/// and, written as keys are, is something, and a page is known whose key is
/// longer and starts with it.
pub proof fn law_a_completion_is_offered_whenever_a_page_goes_on(ps: Seq<Page>, typed: Seq<char>)
    ensures
        completion(ps, typed) is Some <==> {
            &&& forall|i: int| 0 <= i < typed.len() ==> !is_space(#[trigger] typed[i])
            &&& key_of(typed).len() > 0
            &&& exists|k: int|
                0 <= k < ps.len() && key_of((#[trigger] ps[k]).url).len() > key_of(typed).len()
                    && key_of(ps[k].url).take(key_of(typed).len() as int) == key_of(typed)
        },
{
    let wanted = key_of(typed);
    lemma_best_of(ps, wanted);
    assert forall|k: int| 0 <= k < ps.len() && key_of((#[trigger] ps[k]).url).len()
        > wanted.len() implies (goes_on(ps[k], wanted) <==> key_of(ps[k].url).take(
        wanted.len() as int,
    ) == wanted) by {
        let key = key_of(ps[k].url);
        assert(key.take(wanted.len() as int) =~= key.subrange(0, wanted.len() as int));
    }
    if let Some(b) = best_of(ps, wanted) {
        let k = choose|k: int| 0 <= k < ps.len() && ps[k] == b;
        assert(goes_on(ps[k], wanted));
    }
    if has_space(typed) {
        let i = choose|i: int| 0 <= i < typed.len() && is_space(#[trigger] typed[i]);
        assert(is_space(typed[i]));
    }
}

/// Whether a log is to be written again.
pub open spec fn outgrown(log: Seq<char>) -> bool {
    whole_lines(log).len() >= COMPACT_AT || cut_short(log).len() > 0
}

/// A log is written again once it has four thousand lines, or when its last one
/// was cut short; a line that was cut short is not read.
pub proof fn law_a_line_cut_short_is_not_read(log: Seq<char>, part: Seq<char>)
    requires
        cut_short(log).len() == 0,
        !part.contains('\n'),
    ensures
        whole_lines(log + part) == whole_lines(log),
        cut_short(log + part) == part,
        outgrown(log + part) <==> part.len() > 0 || whole_lines(log).len() >= 4000,
    decreases log.len(),
{
    lemma_index_of(log, '\n');
    let end = index_of(log, '\n');
    if end >= log.len() {
        assert(log + part =~= part);
        lemma_index_of(part, '\n');
    } else {
        let all = log + part;
        lemma_index_of_is(all, '\n', end);
        assert(all.take(end) =~= log.take(end));
        assert(all.skip(end + 1) =~= log.skip(end + 1) + part);
        law_a_line_cut_short_is_not_read(log.skip(end + 1), part);
    }
}

/// A page is found by its address without the part that nobody types, in any
/// case: `https://` and `www.` are left out, and other schemes are not.
pub proof fn law_a_page_is_found_without_its_prefix(rest: Seq<char>)
    requires
        !starts(lower_all(rest), "https://"@),
        !starts(lower_all(rest), "www."@),
    ensures
        key_of(rest) == lower_all(rest),
        key_of("https://"@ + rest) == lower_all(rest),
        key_of("www."@ + rest) == lower_all(rest),
        key_of("https://www."@ + rest) == lower_all(rest),
        key_of("HTTPS://WWW."@ + rest) == lower_all(rest),
        key_of("http://"@ + rest) == "http://"@ + lower_all(rest),
        key_of("file://"@ + rest) == "file://"@ + lower_all(rest),
{
    reveal_strlit("https://");
    reveal_strlit("www.");
    reveal_strlit("https://www.");
    reveal_strlit("HTTPS://WWW.");
    reveal_strlit("http://");
    reveal_strlit("file://");
    let low = lower_all(rest);
    lemma_key(Seq::empty(), rest, 0);
    lemma_key("https://"@, rest, 8);
    lemma_key("www."@, rest, 4);
    lemma_key("https://www."@, rest, 12);
    lemma_key("HTTPS://WWW."@, rest, 12);
    lemma_key("http://"@, rest, 0);
    lemma_key("file://"@, rest, 0);
    assert(Seq::<char>::empty() + rest =~= rest);
    let s = "https://"@ + rest;
    assert(lower_all(s) =~= "https://"@ + low);
    assert(lower_all(s).subrange(0, 8) =~= "https://"@);
    assert(starts(lower_all(s), "https://"@));
    assert(s.skip(8) =~= rest);
    assert(prefix_chars(s) == 8);
    let s = "www."@ + rest;
    assert(lower_all(s) =~= "www."@ + low);
    assert(lower_all(s)[0] == 'w');
    assert(!starts(lower_all(s), "https://"@)) by {
        if starts(lower_all(s), "https://"@) {
            assert(lower_all(s).subrange(0, 8)[0] == 'w');
        }
    }
    assert(lower_all(s).subrange(0, 4) =~= "www."@);
    assert(s.skip(0) =~= s);
    assert(prefix_chars(s) == 4);
    let s = "https://www."@ + rest;
    assert(lower_all(s) =~= "https://www."@ + low);
    assert(lower_all(s).subrange(0, 8) =~= "https://"@);
    assert(s.skip(8) =~= "www."@ + rest);
    assert(("www."@ + low).subrange(0, 4) =~= "www."@);
    assert(lower_all("www."@ + rest) =~= "www."@ + low);
    let s = "HTTPS://WWW."@ + rest;
    assert(lower_all(s) =~= "https://www."@ + low);
    assert(s.skip(8) =~= s.subrange(8, 12) + rest);
    assert(lower_all(s).subrange(0, 8) =~= "https://"@);
    assert(lower_all(s.skip(8)) =~= "www."@ + low);
    assert(s.skip(12) =~= rest);
    let s = "http://"@ + rest;
    assert(lower_all(s) =~= "http://"@ + low);
    assert(!starts(lower_all(s), "https://"@)) by {
        if starts(lower_all(s), "https://"@) {
            assert(lower_all(s).subrange(0, 8)[4] == ':');
        }
    }
    assert(!starts(lower_all(s), "www."@)) by {
        if starts(lower_all(s), "www."@) {
            assert(lower_all(s).subrange(0, 4)[0] == 'h');
        }
    }
    assert(s.skip(0) =~= s);
    let s = "file://"@ + rest;
    assert(lower_all(s) =~= "file://"@ + low);
    assert(!starts(lower_all(s), "https://"@)) by {
        if starts(lower_all(s), "https://"@) {
            assert(lower_all(s).subrange(0, 8)[0] == 'f');
        }
    }
    assert(!starts(lower_all(s), "www."@)) by {
        if starts(lower_all(s), "www."@) {
            assert(lower_all(s).subrange(0, 4)[0] == 'f');
        }
    }
    assert(s.skip(0) =~= s);
    assert(rest.skip(0) =~= rest);
    assert("https://www."@.skip(12) + rest =~= rest);
}

proof fn lemma_key(head: Seq<char>, rest: Seq<char>, n: nat)
    requires
        n == 0 || n == head.len(),
    ensures
        prefix_chars(head + rest) == n ==> key_of(head + rest) == lower_all(
            if n == 0 {
                head + rest
            } else {
                rest
            },
        ),
{
    let s = head + rest;
    if n == 0 {
        assert(s.skip(0) =~= s);
    } else {
        assert(s.skip(n as int) =~= rest);
    }
}

/// What is remembered: pages of the web and files, whatever the case of the
/// scheme, with something behind it and nothing that would break a line.
pub proof fn law_pages_and_files_are_remembered(url: Seq<char>)
    ensures
        recordable(url) <==> {
            let low = lower_all(url);
            let under = |scheme: Seq<char>, n: int|
                url.len() > n && low.take(n) == scheme;
            &&& under("http://"@, 7) || under("https://"@, 8) || under("file://"@, 7)
            &&& forall|i: int| 0 <= i < url.len() ==> !is_space(#[trigger] url[i]) && plain(url[i])
        },
{
    reveal_strlit("https://");
    reveal_strlit("http://");
    reveal_strlit("file://");
    let low = lower_all(url);
    if low.len() >= 7 {
        assert(starts(low, "http://"@) <==> low.take(7) =~= "http://"@);
        assert(starts(low, "file://"@) <==> low.take(7) =~= "file://"@);
    }
    if low.len() >= 8 {
        assert(starts(low, "https://"@) <==> low.take(8) =~= "https://"@);
    }
}

/// A line of the log is four columns between tabs: when the page was last seen,
/// how often, its address and its title.
pub proof fn law_a_line_is_four_columns(p: Page)
    requires
        writable(p),
    ensures
        pieces(line_of(p), '\t') == seq![
            decimal(p.last as nat),
            decimal(p.visits as nat),
            p.url,
            p.title,
        ],
{
    let (a, b) = (decimal(p.last as nat), decimal(p.visits as nat));
    lemma_decimal_has_no_tab(p.last as nat);
    lemma_decimal_has_no_tab(p.visits as nat);
    assert(!p.url.contains('\t')) by {
        if p.url.contains('\t') {
            let i = choose|i: int| 0 <= i < p.url.len() && p.url[i] == '\t';
            assert(plain(p.url[i]));
        }
    }
    assert(!p.title.contains('\t')) by {
        if p.title.contains('\t') {
            let i = choose|i: int| 0 <= i < p.title.len() && p.title[i] == '\t';
            assert(plain(p.title[i]));
        }
    }
    let tab = seq!['\t'];
    let third = p.url + tab + p.title;
    let second = b + tab + third;
    assert(line_of(p) =~= a + tab + second);
    assert(!a.contains('\t'));
    assert(!b.contains('\t'));
    lemma_first_piece(a, second, '\t');
    lemma_first_piece(b, third, '\t');
    lemma_first_piece(p.url, p.title, '\t');
    lemma_first_piece(p.title, Seq::empty(), '\t');
    assert(pieces(line_of(p), '\t') =~= seq![a, b, p.url, p.title]);
}

/// A visit forgets no other page while there is room for all of them, and when
/// there is none it is the one at the far end that goes.
pub proof fn law_a_visit_forgets_no_other_page(
    ps: Seq<Page>,
    url: Seq<char>,
    title: Seq<char>,
    now: u64,
    i: int,
)
    requires
        one_per_url(ps),
        ps.len() <= 2000,
        recordable(url),
        0 <= i < ps.len(),
        ps[i].url != url,
    ensures
        i < 1999 || ps.len() < 2000 || place_of(ps, url) < ps.len() ==> after_visit(
            ps,
            url,
            title,
            now,
        ).contains(ps[i]),
        after_visit(ps, url, title, now)[0].title == if trim(sanitized(title)).len() > 0 {
            trim(sanitized(title))
        } else if place_of(ps, url) < ps.len() {
            ps[place_of(ps, url)].title
        } else {
            Seq::empty()
        },
{
    lemma_place_of(ps, url);
    let at = place_of(ps, url);
    let all = seq![page_visited(ps, url, title, now)] + without(ps, url);
    if at < ps.len() {
        if i < at {
            assert(all[i + 1] == ps[i]);
        } else {
            assert(all[i] == ps[i]);
        }
        assert(capped(all) == all);
    } else {
        assert(all[i + 1] == ps[i]);
        if all.len() > CAP {
            if i < 1999 {
                assert(capped(all)[i + 1] == ps[i]);
            }
        }
    }
}

/// A line read later is of the newer visit: its page comes first, with no fewer
/// visits than were known, and every other page stays as it was.
pub proof fn law_a_later_line_counts_no_fewer_visits(ps: Seq<Page>, line: Seq<char>, p: Page)
    requires
        one_per_url(ps),
        page_of(line) == Some(p),
    ensures
        ({
            let after = after_line(ps, line);
            &&& after[0].url == p.url && after[0].title == p.title && after[0].last == p.last
            &&& after[0].visits >= p.visits && after[0].visits >= known_visits(ps, p.url)
            &&& after[0].visits == p.visits || after[0].visits == known_visits(ps, p.url)
            &&& forall|q: Page| q.url != p.url ==> (ps.contains(q) <==> after.contains(q))
        }),
        page_of(line) is None ==> after_line(ps, line) == ps,
{
    lemma_place_of(ps, p.url);
    let at = place_of(ps, p.url);
    let after = after_line(ps, line);
    assert forall|q: Page| q.url != p.url implies (ps.contains(q) <==> after.contains(q)) by {
        if ps.contains(q) {
            let i = choose|i: int| 0 <= i < ps.len() && ps[i] == q;
            if at < ps.len() && i > at {
                assert(after[i] == q);
            } else {
                assert(after[i + 1] == q);
            }
        }
        if after.contains(q) {
            let k = choose|k: int| 0 <= k < after.len() && after[k] == q;
            assert(k > 0);
            if at < ps.len() && k - 1 >= at {
                assert(ps[k] == q);
            } else {
                assert(ps[k - 1] == q);
            }
        }
    }
}

/// The page that is seen most finishes what is typed, and of two seen as often
/// the one seen last.
pub proof fn law_the_page_seen_most_comes_first(a: Page, b: Page)
    ensures
        a.visits > b.visits ==> at_least(a, b) && !at_least(b, a),
        a.visits == b.visits && a.last > b.last ==> at_least(a, b) && !at_least(b, a),
        a.visits == b.visits && a.last == b.last ==> at_least(a, b) && at_least(b, a),
{
}

/// The places of one kind, which go up.
proof fn lemma_of_tier_goes_up(tiers: Seq<int>, t: int)
    ensures
        forall|k: int|
            0 <= k < of_tier(tiers, t).len() ==> 0 <= (#[trigger] of_tier(tiers, t)[k])
                < tiers.len() && tiers[of_tier(tiers, t)[k]] == t,
        forall|k: int, m: int|
            0 <= k < m < of_tier(tiers, t).len() ==> (#[trigger] of_tier(tiers, t)[k]) < (
            #[trigger] of_tier(tiers, t)[m]),
    decreases tiers.len(),
{
    if tiers.len() > 0 {
        let rest = tiers.drop_last();
        lemma_of_tier_goes_up(rest, t);
        let before = of_tier(rest, t);
        let all = of_tier(tiers, t);
        assert forall|k: int| 0 <= k < all.len() implies 0 <= (#[trigger] all[k]) < tiers.len()
            && tiers[all[k]] == t by {
            if k < before.len() {
                assert(all[k] == before[k]);
                assert(rest[before[k]] == tiers[before[k]]);
            }
        }
        assert forall|k: int, m: int| 0 <= k < m < all.len() implies (#[trigger] all[k]) < (
        #[trigger] all[m]) by {
            assert(all[k] == before[k]);
            if m < before.len() {
                assert(all[m] == before[m]);
            }
        }
    }
}

/// Looking up goes first through the pages whose address starts with what was
/// typed, then through those that hold it, then through those whose title does,
/// and through each kind in the order in which they were seen.
pub proof fn law_a_walk_is_in_order(
    keys: Seq<Seq<char>>,
    titles: Seq<Seq<char>>,
    typed: Seq<char>,
    k: int,
    m: int,
)
    requires
        keys.len() == titles.len(),
        0 <= k < m < ranked(keys, titles, typed).len(),
    ensures
        ({
            let (i, j) = (ranked(keys, titles, typed)[k], ranked(keys, titles, typed)[m]);
            let wanted = key_of(trim(typed));
            &&& 0 <= i < keys.len() && 0 <= j < keys.len() && i != j
            &&& trim(typed).len() == 0 ==> i < j
            &&& trim(typed).len() > 0 && starts(keys[j], wanted) ==> starts(keys[i], wanted)
            &&& trim(typed).len() > 0 && holds(keys[j], wanted) ==> starts(keys[i], wanted) || holds(
                keys[i],
                wanted,
            )
            &&& starts(keys[i], wanted) && starts(keys[j], wanted) ==> i < j
            &&& holds(keys[i], wanted) && !starts(keys[i], wanted) && holds(keys[j], wanted) ==> i
                < j
            &&& !holds(keys[i], wanted) && !starts(keys[i], wanted) ==> i < j
        }),
{
    if trim(typed).len() > 0 {
        let tiers = tiers_of(keys, titles, typed);
        lemma_of_tier_goes_up(tiers, 0);
        lemma_of_tier_goes_up(tiers, 1);
        lemma_of_tier_goes_up(tiers, 2);
        let (a, b, c) = (of_tier(tiers, 0), of_tier(tiers, 1), of_tier(tiers, 2));
        let all = by_tier(tiers);
        let (i, j) = (all[k], all[m]);
        assert(k < a.len() ==> i == a[k]);
        assert(a.len() <= k < a.len() + b.len() ==> i == b[k - a.len()]);
        assert(a.len() + b.len() <= k ==> i == c[k - a.len() - b.len()]);
        assert(m < a.len() ==> j == a[m]);
        assert(a.len() <= m < a.len() + b.len() ==> j == b[m - a.len()]);
        assert(a.len() + b.len() <= m ==> j == c[m - a.len() - b.len()]);
        assert(tiers[i] <= tiers[j]);
        assert(tiers[i] == tiers[j] ==> i < j);
    }
}

}
