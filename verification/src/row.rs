//! The top row: who has it, and what it says.
//!
//! Five things share it. A url being typed takes the whole row, then a needle
//! being typed, then a dialog, then a path for a file input; without any of
//! them it is the page's own line, or the strip when there is more than one
//! tab. A download never takes the row: its words stand beside the page's.
use vstd::prelude::*;

use crate::bar::{Bar, UrlBar};
use crate::bytes::utf8;
use crate::dialog::{Dialog, Kind, Question};
use crate::find::{counted, Finder, Matches};
use crate::line::{Line, Typing};
use crate::screen::{
    clip_to, clipped, dialog_line, dialog_prompt, law_clipping_keeps_a_front_that_fits,
    lemma_width, prompt_line_beside, prompt_of, prompt_room, prompt_room_beside, room_beside, row,
    split_line, status_line, strip, tab_line, tab_text, typed_row, width, width_of, TabLabel,
};
use crate::strings::{chars_of, string_of};
use crate::tabs::{Leaf, Strip, Tabs};
use crate::text::sanitized;
use crate::upload::{maybe, Offer, Upload};
use vstd::slice::slice_subrange;

verus! {

// ---- as much of a line as fits ----

/// As much of a line as fits in some cells, with the cursor in sight.
#[derive(Debug, PartialEq, Eq)]
pub struct Window {
    pub text: String,
    pub hint: String,
    /// How many cells of the text are before the cursor.
    pub cursor: usize,
}

/// Where what is shown of a line starts, from `k` on: as early as leaves the
/// cursor in sight.
pub open spec fn shown_from(text: Seq<char>, cursor: int, room: int, k: int) -> int
    decreases cursor - k,
{
    if k >= cursor || width_of(text.subrange(k, cursor)) < room {
        k
    } else {
        shown_from(text, cursor, room, k + 1)
    }
}

/// Where what is shown of a line starts.
pub open spec fn start_of(line: Typing, room: int) -> int {
    shown_from(line.text, line.cursor, room, 0)
}

/// What is shown of a line's text.
pub open spec fn text_shown(line: Typing, room: int) -> Seq<char> {
    clipped(line.text.skip(start_of(line, room)), room)
}

/// What is shown of what is offered after it.
pub open spec fn hint_shown(line: Typing, room: int) -> Seq<char> {
    clipped(line.hint, room - width_of(text_shown(line, room)))
}

/// How many cells of what is shown are before the cursor.
pub open spec fn cursor_shown(line: Typing, room: int) -> int {
    width_of(line.text.subrange(start_of(line, room), line.cursor)) as int
}

/// The start is in the line, and the cursor in sight.
proof fn lemma_shown_from(text: Seq<char>, cursor: int, room: int, k: int)
    requires
        0 <= k <= cursor <= text.len(),
        room >= 1,
    ensures
        k <= shown_from(text, cursor, room, k) <= cursor,
        width_of(text.subrange(shown_from(text, cursor, room, k), cursor)) < room,
    decreases cursor - k,
{
    if k >= cursor {
        assert(text.subrange(k, cursor) =~= Seq::<char>::empty());
    } else if width_of(text.subrange(k, cursor)) >= room {
        lemma_shown_from(text, cursor, room, k + 1);
    }
}

/// As much of a line as fits in `room` cells, with the cursor in sight.
pub fn window(line: &Line, room: usize) -> (r: Window)
    requires
        line.wf(),
        room >= 1,
    ensures
        r.text@ == text_shown(line@, room as int),
        r.hint@ == hint_shown(line@, room as int),
        r.cursor == cursor_shown(line@, room as int),
        r.cursor < room,
{
    let chars = chars_of(line.text.as_str());
    let cursor = line.cursor;
    let mut k: usize = 0;
    proof {
        lemma_shown_from(chars@, cursor as int, room as int, 0);
    }
    let mut before = width(string_of(slice_subrange(chars.as_slice(), 0, cursor)).as_str());
    while k < cursor && before >= room
        invariant
            k <= cursor <= chars@.len(),
            chars@ == line@.text,
            cursor == line@.cursor,
            start_of(line@, room as int) == shown_from(chars@, cursor as int, room as int, k as int),
            before == width_of(chars@.subrange(k as int, cursor as int)) || (before == usize::MAX
                && width_of(chars@.subrange(k as int, cursor as int)) >= usize::MAX),
        decreases cursor - k,
    {
        k += 1;
        before = width(string_of(slice_subrange(chars.as_slice(), k, cursor)).as_str());
    }
    proof {
        if k >= cursor {
            assert(chars@.subrange(k as int, cursor as int) =~= Seq::<char>::empty());
        }
        assert(start_of(line@, room as int) == k);
        assert(chars@.skip(k as int) =~= chars@.subrange(k as int, chars@.len() as int));
        law_clipping_keeps_a_front_that_fits(chars@.skip(k as int), room as int);
    }
    let rest = string_of(slice_subrange(chars.as_slice(), k, chars.len()));
    let text = clip_to(rest.as_str(), room);
    let used = width(text.as_str());
    let hint = clip_to(line.hint.as_str(), room - used);
    Window { text, hint, cursor: before }
}

// ---- a row being typed into ----

/// The row as a line being typed after a prompt, with a text at its right-hand
/// end.
pub open spec fn typing_shown(cols: int, prompt: Seq<char>, line: Typing, right: Seq<char>) -> Seq<
    char,
> {
    let room = prompt_room(cols, prompt, right);
    typed_row(
        cols,
        prompt,
        text_shown(line, room),
        hint_shown(line, room),
        cursor_shown(line, room),
        right,
    )
}

/// The row as `line` being typed after `prompt`, with `right` at the right-hand
/// end: as much of the line as fits, with the cursor in sight.
pub fn typing_row_beside(cols: u32, prompt: &str, line: &Line, right: &str) -> (r: Vec<u8>)
    requires
        line.wf(),
        width_of(prompt@) < usize::MAX,
    ensures
        r@ == utf8(typing_shown(cols as int, prompt@, line@, right@)),
{
    let room = prompt_room_beside(cols, prompt, right);
    let shown = window(line, room);
    proof {
        assert(room_beside(cols as int, right@) <= cols);
    }
    prompt_line_beside(cols, prompt, shown.text.as_str(), shown.hint.as_str(), shown.cursor, right)
}

/// The row as `line` being typed after `prompt`.
pub fn typing_row(cols: u32, prompt: &str, line: &Line) -> (r: Vec<u8>)
    requires
        line.wf(),
        width_of(prompt@) < usize::MAX,
    ensures
        r@ == utf8(typing_shown(cols as int, prompt@, line@, Seq::empty())),
{
    proof {
        reveal_strlit("");
        assert(""@ =~= Seq::<char>::empty());
    }
    typing_row_beside(cols, prompt, line, "")
}

// ---- who has the row ----

/// What has the whole row, when something does: something being typed, or a
/// question the page is stopped on.
pub enum RowOwner<'a> {
    Bar(&'a UrlBar),
    /// `ctrl+f`'s prompt: the person's, like the bar, and not any page's.
    Find(&'a Finder),
    /// Any dialog: a prompt is a line with the cursor, the others are a question
    /// answered by a key.
    Dialog(&'a Dialog),
    Upload(&'a Upload),
}

/// What a [`RowOwner`] is.
pub enum Owner {
    Bar(Typing),
    Find(Typing, Option<Matches>),
    Dialog(Question),
    Upload(Offer),
}

impl<'a> View for RowOwner<'a> {
    type V = Owner;

    open spec fn view(&self) -> Owner {
        match *self {
            RowOwner::Bar(bar) => Owner::Bar(bar.line@),
            RowOwner::Find(finder) => Owner::Find(finder.line@, finder.matches),
            RowOwner::Dialog(dialog) => Owner::Dialog(dialog@),
            RowOwner::Upload(upload) => Owner::Upload(upload@),
        }
    }
}

impl<'a> RowOwner<'a> {
    /// What is being typed can be typed into.
    pub open spec fn wf(self) -> bool {
        match self {
            RowOwner::Bar(bar) => bar.wf(),
            RowOwner::Find(finder) => finder.wf(),
            RowOwner::Dialog(dialog) => dialog.wf(),
            RowOwner::Upload(upload) => upload.wf(),
        }
    }
}

/// Which line owns the row: the url bar, then the find prompt, then a dialog on
/// the page in front, then a path for its file input; or nothing, and the row
/// is the page's own.
///
/// The bar and the prompt first, because the person opened them, and a question
/// that arrived while they were typing is there when they finish. The path
/// last, because the page is not waiting on it.
pub open spec fn owner_of(
    tabs: Strip,
    bar: Option<Typing>,
    find: Option<(Typing, Option<Matches>)>,
) -> Option<Owner> {
    match bar {
        Some(line) => Some(Owner::Bar(line)),
        None => match find {
            Some((line, matches)) => Some(Owner::Find(line, matches)),
            None => match tabs.active() {
                Some(leaf) => match leaf.dialog {
                    Some(q) => Some(Owner::Dialog(q)),
                    None => match leaf.upload {
                        Some(offer) => Some(Owner::Upload(offer)),
                        None => None,
                    },
                },
                None => None,
            },
        },
    }
}

/// The line of an optional url bar.
pub open spec fn bar_line(bar: Option<&UrlBar>) -> Option<Typing> {
    match bar {
        Some(bar) => Some(bar.line@),
        None => None,
    }
}

/// The line of an optional find prompt, and what the page answered it.
pub open spec fn find_line(find: Option<&Finder>) -> Option<(Typing, Option<Matches>)> {
    match find {
        Some(finder) => Some((finder.line@, finder.matches)),
        None => None,
    }
}

/// Which line owns the row.
pub fn row_owner<'a>(
    tabs: &'a Tabs,
    bar: Option<&'a UrlBar>,
    find: Option<&'a Finder>,
) -> (r: Option<RowOwner<'a>>)
    requires
        tabs.wf(),
        bar matches Some(b) ==> b.wf(),
        find matches Some(f) ==> f.wf(),
    ensures
        match r {
            Some(owner) => owner.wf() && owner_of(tabs@, bar_line(bar), find_line(find)) == Some(
                owner@,
            ),
            None => owner_of(tabs@, bar_line(bar), find_line(find)) is None,
        },
{
    if let Some(bar) = bar {
        return Some(RowOwner::Bar(bar));
    }
    if let Some(find) = find {
        return Some(RowOwner::Find(find));
    }
    let tab = match tabs.active() {
        Some(tab) => tab,
        None => return None,
    };
    if let Some(dialog) = &tab.dialog {
        return Some(RowOwner::Dialog(dialog));
    }
    match &tab.upload {
        Some(upload) => Some(RowOwner::Upload(upload)),
        None => None,
    }
}

/// What an owner of the row draws on it.
pub open spec fn drawn(cols: int, owner: Owner) -> Seq<char> {
    match owner {
        Owner::Bar(line) => typing_shown(cols, "url: "@, line, Seq::empty()),
        Owner::Find(line, matches) => typing_shown(
            cols,
            "find: "@,
            line,
            counted(line, matches),
        ),
        Owner::Dialog(q) => if q.kind == Kind::Prompt {
            typing_shown(cols, prompt_of(cols, q.caption()), q.line, Seq::empty())
        } else {
            row(cols, q.caption(), hint_of(q.kind))
        },
        Owner::Upload(offer) => typing_shown(
            cols,
            prompt_of(
                cols,
                if offer.multiple {
                    "files:"@
                } else {
                    "file:"@
                },
            ),
            offer.line,
            Seq::empty(),
        ),
    }
}

/// Which keys answer a dialog that is not typed into.
pub open spec fn hint_of(kind: Kind) -> Seq<char> {
    match kind {
        Kind::Alert => "any key"@,
        Kind::Prompt => "enter/esc"@,
        _ => "y/n"@,
    }
}

/// A question as a prompt leaves room on the row.
proof fn lemma_prompt_fits(cols: u32, caption: Seq<char>)
    ensures
        width_of(prompt_of(cols as int, caption)) < usize::MAX,
{
    if caption.len() > 0 {
        let kept = clipped(caption, cols as int / 2);
        law_clipping_keeps_a_front_that_fits(caption, cols as int / 2);
        lemma_width(kept, " "@);
        reveal_strlit(" ");
        lemma_width(" "@, Seq::empty());
    }
}

/// The row as whichever of them owns it draws it.
pub fn owned_row(cols: u32, owner: RowOwner<'_>) -> (r: Vec<u8>)
    requires
        owner.wf(),
    ensures
        r@ == utf8(drawn(cols as int, owner@)),
{
    match owner {
        RowOwner::Bar(bar) => {
            proof {
                reveal_strlit("url: ");
                lemma_width("url: "@, Seq::empty());
            }
            typing_row(cols, "url: ", &bar.line)
        },
        RowOwner::Find(finder) => {
            proof {
                reveal_strlit("find: ");
                lemma_width("find: "@, Seq::empty());
            }
            typing_row_beside(cols, "find: ", &finder.line, finder.count_text().as_str())
        },
        RowOwner::Dialog(dialog) => if dialog.typing() {
            let caption = dialog.caption();
            proof {
                lemma_prompt_fits(cols, caption@);
            }
            typing_row(cols, dialog_prompt(cols, caption.as_str()).as_str(), &dialog.line)
        } else {
            dialog_line(cols, dialog.caption().as_str(), dialog.hint())
        },
        RowOwner::Upload(upload) => {
            let prompt = upload.prompt();
            proof {
                lemma_prompt_fits(cols, prompt@);
            }
            typing_row(cols, dialog_prompt(cols, prompt).as_str(), &upload.line)
        },
    }
}

// ---- where the typing goes ----

/// Which line being typed has the row, when one has.
#[derive(Debug, Clone, Copy, PartialEq, Eq, Structural)]
pub enum Place {
    /// `ctrl+l`, or a new tab.
    Url,
    /// `ctrl+f`.
    Find,
    /// A page's `prompt()`.
    Prompt,
    /// A path for the page's file input.
    Upload,
}

/// The line that a key, a paste and the cursor go to, of what has the row: none
/// for a dialog that is answered by a key rather than typed into.
pub open spec fn typed_at(owner: Option<Owner>) -> Option<Place> {
    match owner {
        Some(Owner::Bar(_)) => Some(Place::Url),
        Some(Owner::Find(_, _)) => Some(Place::Find),
        Some(Owner::Dialog(q)) => if q.kind == Kind::Prompt {
            Some(Place::Prompt)
        } else {
            None
        },
        Some(Owner::Upload(_)) => Some(Place::Upload),
        None => None,
    }
}

/// The line that a key, a paste and the cursor go to: the row's order, so that
/// what the row shows and where the typing goes cannot disagree.
pub fn typing_line(tabs: &Tabs, bar: Option<&UrlBar>, find: Option<&Finder>) -> (r: Option<Place>)
    requires
        tabs.wf(),
        bar matches Some(b) ==> b.wf(),
        find matches Some(f) ==> f.wf(),
    ensures
        r == typed_at(owner_of(tabs@, bar_line(bar), find_line(find))),
{
    match row_owner(tabs, bar, find) {
        Some(RowOwner::Bar(_)) => Some(Place::Url),
        Some(RowOwner::Find(_)) => Some(Place::Find),
        Some(RowOwner::Dialog(dialog)) => if dialog.typing() {
            Some(Place::Prompt)
        } else {
            None
        },
        Some(RowOwner::Upload(_)) => Some(Place::Upload),
        None => None,
    }
}

/// The page in front is stopped behind a dialog.
pub open spec fn is_asking(tabs: Strip) -> bool {
    match tabs.active() {
        Some(leaf) => leaf.dialog is Some,
        None => false,
    }
}

/// Whether the page in front is stopped behind a dialog.
pub fn asking(tabs: &Tabs) -> (r: bool)
    requires
        tabs.wf(),
    ensures
        r == is_asking(tabs@),
{
    match tabs.active() {
        Some(tab) => tab.dialog.is_some(),
        None => false,
    }
}

// ---- the whole row ----

/// One tab of the strip, as it is drawn.
pub open spec fn tab_shown(n: int, leaf: Leaf, in_front: bool) -> Seq<char> {
    (if in_front {
        "["@
    } else {
        " "@
    }) + crate::strings::decimal(n as nat) + (if leaf.waits() {
        "!"@
    } else {
        ":"@
    }) + clipped(sanitized(leaf.labelled()), crate::screen::TAB_CELLS as int) + (if in_front {
        "]"@
    } else {
        " "@
    })
}

/// The first `n` tabs of the strip, as they are drawn.
pub open spec fn strip_shown(tabs: Strip, n: int) -> Seq<char>
    decreases n,
{
    if n <= 0 {
        Seq::empty()
    } else {
        strip_shown(tabs, n - 1) + tab_shown(n, tabs.leaves[n - 1], n - 1 == tabs.front)
    }
}

/// The row: what owns it, else the page's line with a download's words beside
/// it, else the strip with a download's words, or the url, after it. Nothing
/// when there is no tab.
pub open spec fn row_shown(
    cols: int,
    tabs: Strip,
    owner: Option<Owner>,
    downloading: Option<Seq<char>>,
) -> Option<Seq<char>> {
    match tabs.active() {
        Some(leaf) => Some(
            match owner {
                Some(owner) => drawn(cols, owner),
                None => if tabs.leaves.len() < 2 {
                    match downloading {
                        Some(words) => row(cols, sanitized(leaf.said()), words),
                        None => row(cols, sanitized(leaf.said()), Seq::empty()),
                    }
                } else {
                    row(
                        cols,
                        strip_shown(tabs, tabs.leaves.len() as int),
                        match downloading {
                            Some(words) => words,
                            None => sanitized(leaf.url),
                        },
                    )
                },
            },
        ),
        None => None,
    }
}

/// The labels of the strip.
fn labels(tabs: &Tabs) -> (r: Vec<TabLabel>)
    requires
        tabs.wf(),
    ensures
        r@.len() == tabs@.leaves.len(),
        strip(r@, r@.len() as int) == strip_shown(tabs@, r@.len() as int),
{
    let mut out: Vec<TabLabel> = Vec::new();
    let mut i: usize = 0;
    while i < tabs.list.len()
        invariant
            i <= tabs.list@.len(),
            out@.len() == i,
            forall|k: int|
                0 <= k < i ==> tab_text(k + 1, #[trigger] out@[k]) == tab_shown(
                    k + 1,
                    tabs@.leaves[k],
                    k == tabs@.front,
                ),
        decreases tabs.list@.len() - i,
    {
        let tab = &tabs.list[i];
        proof {
            assert(tabs@.leaves[i as int] == tab@);
        }
        out.push(TabLabel { title: tab.label(), active: i == tabs.front, dialog: tab.asks() });
        i += 1;
    }
    proof {
        lemma_strips_agree(out@, tabs@, out@.len() as int);
    }
    out
}

/// Labels that are drawn as the tabs are make the strip of the tabs.
proof fn lemma_strips_agree(labels: Seq<TabLabel>, tabs: Strip, n: int)
    requires
        0 <= n <= labels.len(),
        n <= tabs.leaves.len(),
        forall|k: int|
            0 <= k < n ==> tab_text(k + 1, #[trigger] labels[k]) == tab_shown(
                k + 1,
                tabs.leaves[k],
                k == tabs.front,
            ),
    ensures
        strip(labels, n) == strip_shown(tabs, n),
    decreases n,
{
    if n > 0 {
        lemma_strips_agree(labels, tabs, n - 1);
        assert(tab_text(n - 1 + 1, labels[n - 1]) == tab_shown(
            n - 1 + 1,
            tabs.leaves[n - 1],
            n - 1 == tabs.front,
        ));
    }
}

/// The bytes of the row; `None` when there is no tab.
pub fn redraw_row(
    cols: u32,
    tabs: &Tabs,
    bar: Option<&UrlBar>,
    find: Option<&Finder>,
    downloading: Option<String>,
) -> (r: Option<Vec<u8>>)
    requires
        tabs.wf(),
        bar matches Some(b) ==> b.wf(),
        find matches Some(f) ==> f.wf(),
    ensures
        match r {
            Some(bytes) => row_shown(
                cols as int,
                tabs@,
                owner_of(tabs@, bar_line(bar), find_line(find)),
                maybe(downloading),
            ) matches Some(shown) && bytes@ == utf8(shown),
            None => tabs@.active() is None,
        },
{
    let active = match tabs.active() {
        Some(tab) => tab,
        None => return None,
    };
    let bytes = match row_owner(tabs, bar, find) {
        Some(owner) => owned_row(cols, owner),
        None => if tabs.len() < 2 {
            match downloading {
                Some(words) => split_line(cols, active.line().as_str(), words.as_str()),
                None => status_line(cols, active.line().as_str()),
            }
        } else {
            let labels = labels(tabs);
            let right = match downloading {
                Some(words) => words,
                None => crate::text::sanitize(active.url.as_str()),
            };
            tab_line(cols, &labels, right.as_str())
        },
    };
    Some(bytes)
}

// ---- laws ----

/// The url bar has the row whatever a page asks, and the find prompt when the
/// bar is closed: a question that arrives while a person types waits for them.
pub proof fn law_the_row_is_the_persons_first(
    tabs: Strip,
    line: Typing,
    find: Option<(Typing, Option<Matches>)>,
)
    ensures
        owner_of(tabs, Some(line), find) == Some(Owner::Bar(line)),
        find matches Some((needle, matches)) ==> owner_of(tabs, None, find) == Some(
            Owner::Find(needle, matches),
        ),
{
}

/// A dialog on the page in front has the row before a path does, and the path
/// is there when the dialog has gone.
pub proof fn law_a_path_waits_under_a_dialog(tabs: Strip, q: Question, offer: Offer)
    requires
        tabs.active() matches Some(leaf) && leaf.upload == Some(offer) && leaf.dialog == Some(q),
    ensures
        owner_of(tabs, None, None) == Some(Owner::Dialog(q)),
        owner_of(
            tabs.with_front(Leaf { dialog: None, ..tabs.active()->Some_0 }),
            None,
            None,
        ) == Some(Owner::Upload(offer)),
{
}

/// A tab behind does not own the row in front.
pub proof fn law_a_tab_behind_owns_nothing(tabs: Strip, i: int, leaf: Leaf)
    requires
        tabs.valid(),
        0 <= i < tabs.leaves.len(),
        i != tabs.front,
    ensures
        owner_of(Strip { leaves: tabs.leaves.update(i, leaf), ..tabs }, None, None) == owner_of(
            tabs,
            None,
            None,
        ),
{
}

/// The cursor is always in sight: it stands within the cells a line has.
pub proof fn law_the_cursor_is_in_sight(line: Typing, room: int)
    requires
        line.valid(),
        room >= 1,
    ensures
        0 <= cursor_shown(line, room) < room,
{
    lemma_shown_from(line.text, line.cursor, room, 0);
}

/// As much of what stands before the cursor is shown as there is room for, with a
/// cell left for the cursor, and the cursor stands behind it.
pub proof fn law_a_line_is_shown_up_to_its_cursor(line: Typing, room: int)
    requires
        line.valid(),
        room >= 1,
    ensures
        ({
            let k = start_of(line, room);
            &&& 0 <= k <= line.cursor
            &&& cursor_shown(line, room) == width_of(line.text.subrange(k, line.cursor))
            &&& cursor_shown(line, room) < room
            &&& k > 0 ==> width_of(line.text.subrange(k - 1, line.cursor)) >= room
            &&& width_of(line.text.take(line.cursor)) < room ==> k == 0
            &&& width_of(line.text) < room ==> text_shown(line, room) == line.text
        }),
{
    lemma_least_is_hidden(line.text, line.cursor, room, 0);
    assert(line.text.subrange(0, line.cursor) =~= line.text.take(line.cursor));
    let k = start_of(line, room);
    if width_of(line.text) < room {
        assert(line.text.take(line.cursor) + line.text.skip(line.cursor) =~= line.text);
        lemma_width(line.text.take(line.cursor), line.text.skip(line.cursor));
        assert(line.text.skip(0) =~= line.text);
        law_clipping_keeps_a_front_that_fits(line.text, room);
    }
}

proof fn lemma_least_is_hidden(text: Seq<char>, cursor: int, room: int, k: int)
    requires
        0 <= k <= cursor <= text.len(),
        room >= 1,
        k > 0 ==> width_of(text.subrange(k - 1, cursor)) >= room,
    ensures
        ({
            let s = shown_from(text, cursor, room, k);
            &&& k <= s <= cursor
            &&& width_of(text.subrange(s, cursor)) < room
            &&& s > 0 ==> width_of(text.subrange(s - 1, cursor)) >= room
            &&& width_of(text.subrange(k, cursor)) < room ==> s == k
        }),
    decreases cursor - k,
{
    if k >= cursor {
        assert(text.subrange(k, cursor) =~= Seq::<char>::empty());
    } else if width_of(text.subrange(k, cursor)) >= room {
        lemma_least_is_hidden(text, cursor, room, k + 1);
    }
}

/// What the row is for, when nobody types: the page's own words when there is one
/// page, and the tabs beside the page's address when there are more; what is
/// being downloaded takes the right of either.
pub proof fn law_the_row_says_what_is_in_front(
    cols: int,
    tabs: Strip,
    leaf: Leaf,
    words: Seq<char>,
)
    requires
        tabs.active() == Some(leaf),
    ensures
        tabs.leaves.len() == 1 ==> {
            &&& row_shown(cols, tabs, None, None) == Some(
                row(cols, sanitized(leaf.said()), Seq::empty()),
            )
            &&& row_shown(cols, tabs, None, Some(words)) == Some(
                row(cols, sanitized(leaf.said()), words),
            )
        },
        tabs.leaves.len() > 1 ==> {
            &&& row_shown(cols, tabs, None, None) == Some(
                row(cols, strip_shown(tabs, tabs.leaves.len() as int), sanitized(leaf.url)),
            )
            &&& row_shown(cols, tabs, None, Some(words)) == Some(
                row(cols, strip_shown(tabs, tabs.leaves.len() as int), words),
            )
        },
{
}

/// Who has the row has it whole: the address after its word, the needle after
/// its word with the count beside it, a question with the keys that answer it.
pub proof fn law_the_row_is_its_owners(
    cols: int,
    line: Typing,
    matches: Option<Matches>,
    q: Question,
    offer: Offer,
)
    ensures
        drawn(cols, Owner::Bar(line)) == typing_shown(cols, "url: "@, line, Seq::empty()),
        drawn(cols, Owner::Find(line, matches)) == typing_shown(
            cols,
            "find: "@,
            line,
            counted(line, matches),
        ),
        q.kind == Kind::Alert ==> drawn(cols, Owner::Dialog(q)) == row(
            cols,
            q.caption(),
            "any key"@,
        ),
        q.kind == Kind::Confirm || q.kind == Kind::BeforeUnload ==> drawn(cols, Owner::Dialog(q))
            == row(cols, q.caption(), "y/n"@),
        q.kind == Kind::Prompt ==> drawn(cols, Owner::Dialog(q)) == typing_shown(
            cols,
            prompt_of(cols, q.caption()),
            q.line,
            Seq::empty(),
        ),
        offer.multiple ==> drawn(cols, Owner::Upload(offer)) == typing_shown(
            cols,
            prompt_of(cols, "files:"@),
            offer.line,
            Seq::empty(),
        ),
        !offer.multiple ==> drawn(cols, Owner::Upload(offer)) == typing_shown(
            cols,
            prompt_of(cols, "file:"@),
            offer.line,
            Seq::empty(),
        ),
{
}

/// The strip has each tab by its number and what it is called, and only the one
/// in front in brackets.
pub proof fn law_the_strip_has_every_tab(tabs: Strip, n: int)
    requires
        0 < n <= tabs.leaves.len(),
    ensures
        ({
            let leaf = tabs.leaves[n - 1];
            let middle = crate::strings::decimal(n as nat) + seq![
                if leaf.dialog is Some || leaf.upload is Some {
                    '!'
                } else {
                    ':'
                },
            ] + clipped(sanitized(leaf.labelled()), 20);
            strip_shown(tabs, n) == strip_shown(tabs, n - 1) + if tabs.front == n - 1 {
                seq!['['] + middle + seq![']']
            } else {
                seq![' '] + middle + seq![' ']
            }
        }),
        strip_shown(tabs, 0).len() == 0,
{
    reveal_strlit("[");
    reveal_strlit("]");
    reveal_strlit(" ");
    reveal_strlit("!");
    reveal_strlit(":");
    let leaf = tabs.leaves[n - 1];
    let middle = crate::strings::decimal(n as nat) + seq![
        if leaf.dialog is Some || leaf.upload is Some {
            '!'
        } else {
            ':'
        },
    ] + clipped(sanitized(leaf.labelled()), 20);
    assert(tab_shown(n, leaf, n - 1 == tabs.front) =~= if tabs.front == n - 1 {
        seq!['['] + middle + seq![']']
    } else {
        seq![' '] + middle + seq![' ']
    });
}

/// What is being typed, where: the address first, then the needle, then an
/// answer, then a path.
pub proof fn law_what_is_typed_goes_to_its_line(tabs: Strip, leaf: Leaf, line: Typing)
    requires
        tabs.active() == Some(leaf),
    ensures
        typed_at(owner_of(tabs, Some(line), None)) == Some(Place::Url),
        typed_at(owner_of(tabs, None, Some((line, None)))) == Some(Place::Find),
        leaf.dialog matches Some(q) ==> typed_at(owner_of(tabs, None, None)) == if q.kind
            == Kind::Prompt {
            Some(Place::Prompt)
        } else {
            None
        },
        leaf.dialog is None && leaf.upload is Some ==> typed_at(owner_of(tabs, None, None)) == Some(
            Place::Upload,
        ),
        leaf.dialog is None && leaf.upload is None ==> owner_of(tabs, None, None) is None,
        is_asking(tabs) <==> leaf.dialog is Some,
{
}

/// What is offered stands behind what was typed, as far as there is room for it.
pub proof fn law_an_offer_stands_behind_the_line(line: Typing, room: int)
    requires
        line.valid(),
        room >= 1,
        width_of(line.text) + width_of(line.hint) < room,
    ensures
        text_shown(line, room) == line.text,
        hint_shown(line, room) == line.hint,
{
    law_a_line_is_shown_up_to_its_cursor(line, room);
    law_clipping_keeps_a_front_that_fits(line.hint, room - width_of(line.text));
}

}
