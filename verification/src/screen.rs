//! The status row: how wide a text is, and the bytes that draw a row.
//!
//! A row is the cursor home, reverse video, exactly as many cells as the pane
//! has columns, and reverse video off. A row that is being typed into ends with
//! the cursor where the typing is, shown.
use vstd::prelude::*;

use crate::bytes::{push_text, utf8};
use crate::strings::{chars_of, copied, decimal, decimal_chars, string_of};

verus! {

/// What starts a row.
pub const ROW_START: &'static str = "\u{1b}[1;1H\u{1b}[7m";

/// What ends a row.
pub const ROW_END: &'static str = "\u{1b}[0m";

/// What shows the cursor.
pub const SHOW_CURSOR: &'static str = "\u{1b}[?25h";

/// The most cells a tab's title takes in the strip.
pub const TAB_CELLS: usize = 20;

// ---- how wide a text is ----

/// A character that takes no cell: a combining mark, or one that is invisible.
pub open spec fn is_mark(c: char) -> bool {
    ||| '\u{300}' <= c <= '\u{36f}'
    ||| '\u{483}' <= c <= '\u{489}'
    ||| '\u{591}' <= c <= '\u{5bd}'
    ||| '\u{610}' <= c <= '\u{61a}'
    ||| '\u{64b}' <= c <= '\u{65f}'
    ||| '\u{1ab0}' <= c <= '\u{1aff}'
    ||| '\u{1dc0}' <= c <= '\u{1dff}'
    ||| '\u{200b}' <= c <= '\u{200f}'
    ||| '\u{20d0}' <= c <= '\u{20ff}'
    ||| '\u{fe00}' <= c <= '\u{fe0f}'
    ||| '\u{fe20}' <= c <= '\u{fe2f}'
}

/// A character that takes two cells: East Asian wide and full-width ones, and
/// emoji.
pub open spec fn is_wide(c: char) -> bool {
    ||| '\u{1100}' <= c <= '\u{115f}'
    ||| '\u{2e80}' <= c <= '\u{303e}'
    ||| '\u{3041}' <= c <= '\u{4dbf}'
    ||| '\u{4e00}' <= c <= '\u{a4cf}'
    ||| '\u{a960}' <= c <= '\u{a97f}'
    ||| '\u{ac00}' <= c <= '\u{d7a3}'
    ||| '\u{f900}' <= c <= '\u{faff}'
    ||| '\u{fe30}' <= c <= '\u{fe6f}'
    ||| '\u{ff00}' <= c <= '\u{ff60}'
    ||| '\u{ffe0}' <= c <= '\u{ffe6}'
    ||| '\u{1f300}' <= c <= '\u{1f64f}'
    ||| '\u{1f900}' <= c <= '\u{1f9ff}'
    ||| '\u{20000}' <= c <= '\u{3fffd}'
}

/// How many cells a character takes.
pub open spec fn cells(c: char) -> nat {
    if is_mark(c) {
        0
    } else if is_wide(c) {
        2
    } else {
        1
    }
}

/// How many cells a text takes.
pub open spec fn width_of(s: Seq<char>) -> nat
    decreases s.len(),
{
    if s.len() == 0 {
        0
    } else {
        width_of(s.drop_last()) + cells(s.last())
    }
}

/// How many cells a character takes.
fn char_cells(c: char) -> (n: usize)
    ensures
        n == cells(c),
        n <= 2,
{
    if ('\u{300}' <= c && c <= '\u{36f}') || ('\u{483}' <= c && c <= '\u{489}') || ('\u{591}' <= c
        && c <= '\u{5bd}') || ('\u{610}' <= c && c <= '\u{61a}') || ('\u{64b}' <= c && c
        <= '\u{65f}') || ('\u{1ab0}' <= c && c <= '\u{1aff}') || ('\u{1dc0}' <= c && c
        <= '\u{1dff}') || ('\u{200b}' <= c && c <= '\u{200f}') || ('\u{20d0}' <= c && c
        <= '\u{20ff}') || ('\u{fe00}' <= c && c <= '\u{fe0f}') || ('\u{fe20}' <= c && c
        <= '\u{fe2f}') {
        0
    } else if ('\u{1100}' <= c && c <= '\u{115f}') || ('\u{2e80}' <= c && c <= '\u{303e}') || (
    '\u{3041}' <= c && c <= '\u{4dbf}') || ('\u{4e00}' <= c && c <= '\u{a4cf}') || ('\u{a960}' <= c
        && c <= '\u{a97f}') || ('\u{ac00}' <= c && c <= '\u{d7a3}') || ('\u{f900}' <= c && c
        <= '\u{faff}') || ('\u{fe30}' <= c && c <= '\u{fe6f}') || ('\u{ff00}' <= c && c
        <= '\u{ff60}') || ('\u{ffe0}' <= c && c <= '\u{ffe6}') || ('\u{1f300}' <= c && c
        <= '\u{1f64f}') || ('\u{1f900}' <= c && c <= '\u{1f9ff}') || ('\u{20000}' <= c && c
        <= '\u{3fffd}') {
        2
    } else {
        1
    }
}

/// A text is no wider than twice its characters, and two texts joined are as
/// wide as both.
pub proof fn lemma_width(a: Seq<char>, b: Seq<char>)
    ensures
        width_of(a + b) == width_of(a) + width_of(b),
        width_of(a) <= 2 * a.len(),
    decreases a.len() + b.len(),
{
    if b.len() > 0 {
        assert((a + b).drop_last() =~= a + b.drop_last());
        lemma_width(a, b.drop_last());
    } else {
        assert(a + b =~= a);
        if a.len() > 0 {
            lemma_width(a.drop_last(), b);
            assert(a.drop_last() + b =~= a.drop_last());
        }
    }
}

/// How many cells a text takes; as many as a `usize` can say when it is wider.
pub fn width(s: &str) -> (n: usize)
    ensures
        n == width_of(s@) || (n == usize::MAX && width_of(s@) >= usize::MAX),
{
    let chars = chars_of(s);
    chars_width(chars.as_slice())
}

/// How many cells some characters take.
fn chars_width(s: &[char]) -> (n: usize)
    ensures
        n == width_of(s@) || (n == usize::MAX && width_of(s@) >= usize::MAX),
{
    let mut n: usize = 0;
    let mut i: usize = 0;
    proof {
        assert(s@.take(0) =~= Seq::<char>::empty());
    }
    while i < s.len()
        invariant
            i <= s@.len(),
            n == width_of(s@.take(i as int)) || (n == usize::MAX && width_of(s@.take(i as int))
                >= usize::MAX),
        decreases s@.len() - i,
    {
        let c = char_cells(s[i]);
        proof {
            assert(s@.take(i + 1).drop_last() =~= s@.take(i as int));
            assert(s@.take(i + 1).last() == s@[i as int]);
        }
        if n > usize::MAX - c {
            n = usize::MAX;
        } else {
            n += c;
        }
        i += 1;
    }
    proof {
        assert(s@.take(i as int) =~= s@);
    }
    n
}

/// The longest front of a text that takes no more than `room` cells.
pub open spec fn clipped(s: Seq<char>, room: int) -> Seq<char>
    decreases s.len(),
{
    if s.len() == 0 || cells(s[0]) > room {
        Seq::empty()
    } else {
        seq![s[0]] + clipped(s.drop_first(), room - cells(s[0]))
    }
}

/// The longest front of some characters that takes no more than `room` cells,
/// and how many it takes.
fn clip_chars(s: &[char], room: usize) -> (r: (Vec<char>, usize))
    ensures
        r.0@ == clipped(s@, room as int),
        r.1 == width_of(r.0@),
        r.1 <= room,
{
    let mut out: Vec<char> = Vec::new();
    let mut left: usize = room;
    let mut i: usize = 0;
    proof {
        assert(s@.skip(0) =~= s@);
        assert(out@ + clipped(s@.skip(0), room as int) =~= clipped(s@, room as int));
    }
    while i < s.len()
        invariant
            i <= s@.len(),
            left <= room,
            out@ + clipped(s@.skip(i as int), left as int) == clipped(s@, room as int),
            width_of(out@) == room - left,
        decreases s@.len() - i,
    {
        let c = char_cells(s[i]);
        let ghost rest = s@.skip(i as int);
        proof {
            assert(rest[0] == s@[i as int]);
            assert(rest.drop_first() =~= s@.skip(i + 1));
        }
        if c > left {
            proof {
                assert(out@ + Seq::<char>::empty() =~= out@);
            }
            return (out, room - left);
        }
        let ghost before = out@;
        out.push(s[i]);
        proof {
            assert(out@.drop_last() =~= before);
            assert(out@ + clipped(s@.skip(i + 1), left - c) =~= before + clipped(
                rest,
                left as int,
            ));
        }
        left -= c;
        i += 1;
    }
    proof {
        assert(s@.skip(i as int) =~= Seq::<char>::empty());
        assert(out@ + Seq::<char>::empty() =~= out@);
    }
    (out, room - left)
}

/// The longest front of a text that takes no more than `room` cells.
pub fn clip_to(s: &str, room: usize) -> (r: String)
    ensures
        r@ == clipped(s@, room as int),
{
    let chars = chars_of(s);
    let kept = clip_chars(chars.as_slice(), room).0;
    string_of(kept.as_slice())
}

/// What is clipped is a front of the text, fits, and is all of it when all of
/// it fits.
pub proof fn law_clipping_keeps_a_front_that_fits(s: Seq<char>, room: int)
    requires
        room >= 0,
    ensures
        clipped(s, room).len() <= s.len(),
        clipped(s, room) == s.take(clipped(s, room).len() as int),
        width_of(clipped(s, room)) <= room,
        width_of(s) <= room ==> clipped(s, room) == s,
    decreases s.len(),
{
    if s.len() > 0 {
        let one = seq![s[0]];
        let rest = s.drop_first();
        assert(one.drop_last() =~= Seq::<char>::empty());
        assert(width_of(one.drop_last()) == 0);
        assert(one + rest =~= s);
        lemma_width(one, rest);
        assert(width_of(one) == cells(s[0]));
        if cells(s[0]) <= room {
            law_clipping_keeps_a_front_that_fits(rest, room - cells(s[0]));
            lemma_width(one, clipped(rest, room - cells(s[0])));
            assert(clipped(s, room) =~= s.take(clipped(s, room).len() as int));
        }
    }
}

// ---- rows ----

/// `n` spaces.
pub open spec fn blanks(n: int) -> Seq<char> {
    Seq::new(
        if n < 0 {
            0
        } else {
            n as nat
        },
        |i: int| ' ',
    )
}

/// A text clipped to `room` cells and filled up to them.
pub open spec fn filled(s: Seq<char>, room: int) -> Seq<char> {
    clipped(s, room) + blanks(room - width_of(clipped(s, room)))
}

/// How many cells are left beside `right`, which stands two cells off: all of
/// them when there is no room for it.
pub open spec fn room_beside(cols: int, right: Seq<char>) -> int {
    if right.len() == 0 || width_of(right) + 2 > cols {
        cols
    } else {
        cols - width_of(right) - 2
    }
}

/// `left`, and `right` at the right-hand end, in `cols` cells.
pub open spec fn laid_out(cols: int, left: Seq<char>, right: Seq<char>) -> Seq<char> {
    let room = room_beside(cols, right);
    if room == cols {
        filled(left, cols)
    } else {
        filled(left, room) + "  "@ + right
    }
}

/// The row that says these.
pub open spec fn row(cols: int, left: Seq<char>, right: Seq<char>) -> Seq<char> {
    ROW_START@ + laid_out(cols, left, right) + ROW_END@
}

/// Add spaces.
fn push_blanks(out: &mut Vec<char>, n: usize)
    ensures
        final(out)@ == old(out)@ + blanks(n as int),
{
    let ghost before = out@;
    let mut i: usize = 0;
    proof {
        assert(before + blanks(0) =~= before);
    }
    while i < n
        invariant
            i <= n,
            out@ == before + blanks(i as int),
        decreases n - i,
    {
        out.push(' ');
        i += 1;
        proof {
            assert(out@ =~= before + blanks(i as int));
        }
    }
}

/// How many cells are left beside `right`.
fn room_left(cols: usize, right: &[char]) -> (r: usize)
    ensures
        r == room_beside(cols as int, right@),
        r <= cols,
{
    let w = chars_width(right);
    if right.len() == 0 || w > cols || cols - w < 2 {
        cols
    } else {
        cols - w - 2
    }
}

/// Add characters.
fn push_chars(out: &mut Vec<char>, more: &[char])
    ensures
        final(out)@ == old(out)@ + more@,
{
    let mut copy = copied(more);
    out.append(&mut copy);
}

/// `left`, and `right` at the right-hand end, in `cols` cells.
fn lay_out(cols: usize, left: &[char], right: &[char]) -> (r: Vec<char>)
    ensures
        r@ == laid_out(cols as int, left@, right@),
{
    let room = room_left(cols, right);
    let (mut out, used) = clip_chars(left, room);
    push_blanks(&mut out, room - used);
    if room < cols {
        push_chars(&mut out, chars_of("  ").as_slice());
        push_chars(&mut out, right);
        proof {
            assert(out@ =~= laid_out(cols as int, left@, right@));
        }
    }
    out
}

/// The row that says these, as characters.
fn row_chars(cols: usize, left: &[char], right: &[char]) -> (r: Vec<char>)
    ensures
        r@ == row(cols as int, left@, right@),
{
    let mut out = chars_of(ROW_START);
    push_chars(&mut out, lay_out(cols, left, right).as_slice());
    push_chars(&mut out, chars_of(ROW_END).as_slice());
    out
}

/// Characters as bytes.
fn as_bytes(s: &[char]) -> (r: Vec<u8>)
    ensures
        r@ == utf8(s@),
{
    let mut out: Vec<u8> = Vec::new();
    push_text(&mut out, string_of(s).as_str());
    proof {
        assert(out@ =~= utf8(s@));
    }
    out
}

/// The row with one text on it.
pub fn status_line(cols: u32, text: &str) -> (r: Vec<u8>)
    ensures
        r@ == utf8(row(cols as int, text@, Seq::empty())),
{
    let left = chars_of(text);
    let none: Vec<char> = Vec::new();
    as_bytes(row_chars(cols as usize, left.as_slice(), none.as_slice()).as_slice())
}

/// The row with a text on it and another at its right-hand end.
pub fn split_line(cols: u32, left: &str, right: &str) -> (r: Vec<u8>)
    ensures
        r@ == utf8(row(cols as int, left@, right@)),
{
    let l = chars_of(left);
    let r = chars_of(right);
    as_bytes(row_chars(cols as usize, l.as_slice(), r.as_slice()).as_slice())
}

/// The row with a question on it and the keys that answer it.
pub fn dialog_line(cols: u32, caption: &str, hint: &str) -> (r: Vec<u8>)
    ensures
        r@ == utf8(row(cols as int, caption@, hint@)),
{
    split_line(cols, caption, hint)
}

/// A question as a prompt: half of the row at most, and a space.
pub open spec fn prompt_of(cols: int, caption: Seq<char>) -> Seq<char> {
    if caption.len() == 0 {
        Seq::empty()
    } else {
        clipped(caption, cols / 2) + " "@
    }
}

/// A question as a prompt: half of the row at most, and a space.
pub fn dialog_prompt(cols: u32, caption: &str) -> (r: String)
    ensures
        r@ == prompt_of(cols as int, caption@),
{
    if caption.is_empty() {
        return String::new();
    }
    let mut out = clip_to(caption, (cols / 2) as usize);
    out.append(" ");
    out
}

/// How many cells a line has after a prompt and beside a text: one at least,
/// for the cursor.
pub open spec fn prompt_room(cols: int, prompt: Seq<char>, right: Seq<char>) -> int {
    let room = room_beside(cols, right) - width_of(prompt);
    if room < 1 {
        1
    } else {
        room
    }
}

/// How many cells a line has after a prompt and beside a text.
pub fn prompt_room_beside(cols: u32, prompt: &str, right: &str) -> (r: usize)
    ensures
        r == prompt_room(cols as int, prompt@, right@),
{
    let r = chars_of(right);
    let room = room_left(cols as usize, r.as_slice());
    let used = width(prompt);
    if room <= used {
        1
    } else {
        room - used
    }
}

/// A row that is being typed into: the prompt, the text and what is offered
/// after it, `right` at the end, and the cursor `cursor` cells into the text,
/// shown.
pub open spec fn typed_row(
    cols: int,
    prompt: Seq<char>,
    text: Seq<char>,
    hint: Seq<char>,
    cursor: int,
    right: Seq<char>,
) -> Seq<char> {
    row(cols, prompt + text + hint, right) + "\u{1b}[1;"@ + decimal(
        (width_of(prompt) + cursor + 1) as nat,
    ) + "H"@ + SHOW_CURSOR@
}

/// A row that is being typed into, with a text at its right-hand end.
pub fn prompt_line_beside(
    cols: u32,
    prompt: &str,
    text: &str,
    hint: &str,
    cursor: usize,
    right: &str,
) -> (r: Vec<u8>)
    requires
        width_of(prompt@) + cursor + 1 <= usize::MAX,
    ensures
        r@ == utf8(typed_row(cols as int, prompt@, text@, hint@, cursor as int, right@)),
{
    let mut left = chars_of(prompt);
    push_chars(&mut left, chars_of(text).as_slice());
    push_chars(&mut left, chars_of(hint).as_slice());
    let end = chars_of(right);
    let mut out = row_chars(cols as usize, left.as_slice(), end.as_slice());
    let at: usize = width(prompt) + cursor + 1;
    push_chars(&mut out, chars_of("\u{1b}[1;").as_slice());
    push_chars(&mut out, decimal_chars(at as u64).as_slice());
    push_chars(&mut out, chars_of("H").as_slice());
    push_chars(&mut out, chars_of(SHOW_CURSOR).as_slice());
    as_bytes(out.as_slice())
}

/// A row that is being typed into.
pub fn prompt_line(cols: u32, prompt: &str, text: &str, hint: &str, cursor: usize) -> (r: Vec<u8>)
    requires
        width_of(prompt@) + cursor + 1 <= usize::MAX,
    ensures
        r@ == utf8(typed_row(cols as int, prompt@, text@, hint@, cursor as int, Seq::empty())),
{
    proof {
        reveal_strlit("");
        assert(""@ =~= Seq::<char>::empty());
    }
    prompt_line_beside(cols, prompt, text, hint, cursor, "")
}

// ---- the tab strip ----

/// One tab in the strip.
#[derive(Debug, PartialEq, Eq)]
pub struct TabLabel {
    pub title: String,
    pub active: bool,
    /// Whether its page is waiting on the person.
    pub dialog: bool,
}

/// One tab in the strip: its number and as much of its title as
/// [`TAB_CELLS`], in brackets when it is in front, and with a mark when its page
/// is waiting.
pub open spec fn tab_text(n: int, label: TabLabel) -> Seq<char> {
    (if label.active {
        "["@
    } else {
        " "@
    }) + decimal(n as nat) + (if label.dialog {
        "!"@
    } else {
        ":"@
    }) + clipped(label.title@, TAB_CELLS as int) + (if label.active {
        "]"@
    } else {
        " "@
    })
}

/// The first `n` tabs of the strip.
pub open spec fn strip(labels: Seq<TabLabel>, n: int) -> Seq<char>
    decreases n,
{
    if n <= 0 {
        Seq::empty()
    } else {
        strip(labels, n - 1) + tab_text(n, labels[n - 1])
    }
}

/// The row with the tabs on it, and a text at its right-hand end.
pub fn tab_line(cols: u32, labels: &Vec<TabLabel>, right: &str) -> (r: Vec<u8>)
    ensures
        r@ == utf8(row(cols as int, strip(labels@, labels@.len() as int), right@)),
{
    let mut out: Vec<char> = Vec::new();
    let mut i: usize = 0;
    while i < labels.len()
        invariant
            i <= labels@.len(),
            out@ == strip(labels@, i as int),
        decreases labels@.len() - i,
    {
        let label = &labels[i];
        push_chars(
            &mut out,
            chars_of(
                if label.active {
                    "["
                } else {
                    " "
                },
            ).as_slice(),
        );
        push_chars(&mut out, decimal_chars(i as u64 + 1).as_slice());
        push_chars(
            &mut out,
            chars_of(
                if label.dialog {
                    "!"
                } else {
                    ":"
                },
            ).as_slice(),
        );
        let title = chars_of(label.title.as_str());
        push_chars(&mut out, clip_chars(title.as_slice(), TAB_CELLS).0.as_slice());
        push_chars(
            &mut out,
            chars_of(
                if label.active {
                    "]"
                } else {
                    " "
                },
            ).as_slice(),
        );
        proof {
            assert(out@ =~= strip(labels@, i + 1));
        }
        i += 1;
    }
    let end = chars_of(right);
    as_bytes(row_chars(cols as usize, out.as_slice(), end.as_slice()).as_slice())
}

/// Spaces are one cell each.
proof fn lemma_blanks(n: int)
    requires
        n >= 0,
    ensures
        width_of(blanks(n)) == n,
    decreases n,
{
    if n > 0 {
        assert(blanks(n).drop_last() =~= blanks(n - 1));
        lemma_blanks(n - 1);
    }
}

/// A row is exactly as many cells as the pane has columns, whatever is on it.
pub proof fn law_a_row_is_as_wide_as_the_pane(cols: int, left: Seq<char>, right: Seq<char>)
    requires
        cols >= 0,
    ensures
        width_of(laid_out(cols, left, right)) == cols,
{
    let room = room_beside(cols, right);
    law_clipping_keeps_a_front_that_fits(left, room);
    let kept = clipped(left, room);
    lemma_blanks(room - width_of(kept));
    lemma_width(kept, blanks(room - width_of(kept)));
    if room != cols {
        reveal_strlit("  ");
        assert("  "@ =~= blanks(2));
        lemma_blanks(2);
        lemma_width(filled(left, room), "  "@);
        lemma_width(filled(left, room) + "  "@, right);
    }
}

/// A clipped text is as long as it can be: with one character more it would not
/// fit.
pub proof fn law_clipping_takes_all_that_fits(s: Seq<char>, room: int)
    requires
        room >= 0,
    ensures
        clipped(s, room).len() < s.len() ==> width_of(s.take(clipped(s, room).len() as int + 1))
            > room,
    decreases s.len(),
{
    if s.len() > 0 {
        let one = seq![s[0]];
        assert(one.drop_last() =~= Seq::<char>::empty());
        assert(width_of(one.drop_last()) == 0);
        assert(width_of(one) == cells(s[0]));
        if cells(s[0]) > room {
            assert(s.take(1) =~= one);
        } else {
            let rest = s.drop_first();
            law_clipping_takes_all_that_fits(rest, room - cells(s[0]));
            let n = clipped(rest, room - cells(s[0])).len() as int;
            if n < rest.len() {
                assert(s.take(n + 2) =~= one + rest.take(n + 1));
                lemma_width(one, rest.take(n + 1));
            }
        }
    }
}

/// A row is what stands on the left, from its first character on, then blanks,
/// and what stands on the right at the very end, two cells off, when both have
/// room; what is on the right gives way when it has none.
pub proof fn law_a_row_has_its_left_and_its_right(cols: int, left: Seq<char>, right: Seq<char>)
    requires
        cols >= 0,
    ensures
        ({
            let all = laid_out(cols, left, right);
            let beside = right.len() > 0 && width_of(right) + 2 <= cols;
            let room = if beside {
                cols - width_of(right) - 2
            } else {
                cols
            };
            let shown = if width_of(left) <= room {
                left
            } else {
                clipped(left, room)
            };
            let kept = if beside {
                all.take(all.len() - right.len() - 2)
            } else {
                all
            };
            &&& kept.len() >= shown.len()
            &&& kept.take(shown.len() as int) == shown
            &&& forall|i: int| shown.len() <= i < kept.len() ==> kept[i] == ' '
            &&& beside ==> all.skip(all.len() - right.len()) == right && all.subrange(
                all.len() - right.len() - 2,
                all.len() - right.len(),
            ) == seq![' ', ' ']
        }),
{
    let all = laid_out(cols, left, right);
    reveal_strlit("  ");
    let beside = right.len() > 0 && width_of(right) + 2 <= cols;
    let room = room_beside(cols, right);
    law_clipping_keeps_a_front_that_fits(left, room);
    let kept = filled(left, room);
    if beside {
        assert(all.take(all.len() - right.len() - 2) =~= kept);
        assert(all.skip(all.len() - right.len()) =~= right);
        assert(all.subrange(all.len() - right.len() - 2, all.len() - right.len()) =~= seq![
            ' ',
            ' ',
        ]);
    } else {
        assert(all =~= kept);
    }
    assert(kept.take(clipped(left, room).len() as int) =~= clipped(left, room));
}

/// The row is drawn at the top left, inverted, and the terminal is left as it
/// was.
pub proof fn law_a_row_is_drawn_at_the_top(cols: int, left: Seq<char>, right: Seq<char>)
    ensures
        ({
            let all = row(cols, left, right);
            let n = all.len() as int;
            &&& n >= 14
            &&& all.take(6) == seq!['\x1b', '[', '1', ';', '1', 'H']
            &&& all.subrange(6, 10) == seq!['\x1b', '[', '7', 'm']
            &&& all.subrange(10, n - 4) == laid_out(cols, left, right)
            &&& all.skip(n - 4) == seq!['\x1b', '[', '0', 'm']
        }),
{
    reveal_strlit("\u{1b}[1;1H\u{1b}[7m");
    reveal_strlit("\u{1b}[0m");
    let all = row(cols, left, right);
    let n = all.len() as int;
    assert(all.take(6) =~= seq!['\x1b', '[', '1', ';', '1', 'H']);
    assert(all.subrange(6, 10) =~= seq!['\x1b', '[', '7', 'm']);
    assert(all.subrange(10, n - 4) =~= laid_out(cols, left, right));
    assert(all.skip(n - 4) =~= seq!['\x1b', '[', '0', 'm']);
}

/// The cursor is put where the next character will go: behind the prompt and what
/// stands before it, counted from one; and it is shown.
pub proof fn law_the_cursor_is_put_behind_what_was_typed(
    cols: int,
    prompt: Seq<char>,
    text: Seq<char>,
    hint: Seq<char>,
    cursor: nat,
    right: Seq<char>,
)
    ensures
        ({
            let all = typed_row(cols, prompt, text, hint, cursor as int, right);
            let drawn = row(cols, prompt + text + hint, right);
            &&& all.len() > drawn.len()
            &&& all.take(drawn.len() as int) == drawn
            &&& all.skip(drawn.len() as int) == seq!['\x1b', '[', '1', ';'] + decimal(
                width_of(prompt) + cursor + 1,
            ) + seq!['H', '\x1b', '[', '?', '2', '5', 'h']
        }),
{
    reveal_strlit("\u{1b}[1;");
    reveal_strlit("H");
    reveal_strlit("\u{1b}[?25h");
    let all = typed_row(cols, prompt, text, hint, cursor as int, right);
    let drawn = row(cols, prompt + text + hint, right);
    assert(all.take(drawn.len() as int) =~= drawn);
    assert(all.skip(drawn.len() as int) =~= seq!['\x1b', '[', '1', ';'] + decimal(
        width_of(prompt) + cursor + 1,
    ) + seq!['H', '\x1b', '[', '?', '2', '5', 'h']);
}

/// The tabs stand side by side by their numbers, the one in front in brackets and
/// one that waits for an answer marked.
pub proof fn law_a_tab_stands_by_its_number(labels: Seq<TabLabel>, n: int)
    requires
        0 < n <= labels.len(),
    ensures
        ({
            let label = labels[n - 1];
            let middle = decimal(n as nat) + seq![
                if label.dialog {
                    '!'
                } else {
                    ':'
                },
            ] + clipped(label.title@, 20);
            strip(labels, n) == strip(labels, n - 1) + if label.active {
                seq!['['] + middle + seq![']']
            } else {
                seq![' '] + middle + seq![' ']
            }
        }),
        strip(labels, 0).len() == 0,
{
    reveal_strlit("[");
    reveal_strlit("]");
    reveal_strlit(" ");
    reveal_strlit("!");
    reveal_strlit(":");
    let label = labels[n - 1];
    let middle = decimal(n as nat) + seq![
        if label.dialog {
            '!'
        } else {
            ':'
        },
    ] + clipped(label.title@, 20);
    assert(tab_text(n, label) =~= if label.active {
        seq!['['] + middle + seq![']']
    } else {
        seq![' '] + middle + seq![' ']
    });
}

/// Letters and digits take a cell, ideographs two, and marks that stand on what
/// comes before them none; a text takes what its characters do.
pub proof fn law_a_text_is_as_wide_as_its_characters(a: Seq<char>, b: Seq<char>, c: char)
    ensures
        width_of(a + b) == width_of(a) + width_of(b),
        width_of(seq![c]) == cells(c),
        ' ' <= c <= '~' ==> cells(c) == 1,
        '\u{a0}' <= c <= '\u{2ff}' ==> cells(c) == 1,
        '\u{300}' <= c <= '\u{36f}' ==> cells(c) == 0,
        '\u{fe00}' <= c <= '\u{fe0f}' ==> cells(c) == 0,
        '\u{3041}' <= c <= '\u{30ff}' ==> cells(c) == 2,
        '\u{4e00}' <= c <= '\u{9fff}' ==> cells(c) == 2,
        '\u{ac00}' <= c <= '\u{d7a3}' ==> cells(c) == 2,
        '\u{ff01}' <= c <= '\u{ff60}' ==> cells(c) == 2,
        '\u{1f300}' <= c <= '\u{1f64f}' ==> cells(c) == 2,
{
    lemma_width(a, b);
    assert(seq![c].drop_last() =~= Seq::<char>::empty());
    assert(width_of(seq![c].drop_last()) == 0);
    assert(seq![c].last() == c);
}

/// A prompt takes no more than half of the row, and leaves at least a cell.
pub proof fn law_a_prompt_leaves_room(cols: int, caption: Seq<char>, right: Seq<char>)
    requires
        cols >= 0,
    ensures
        caption.len() == 0 ==> prompt_of(cols, caption).len() == 0,
        caption.len() > 0 ==> prompt_of(cols, caption) == clipped(caption, cols / 2) + seq![' '],
        prompt_room(cols, caption, right) >= 1,
        width_of(caption) + 1 <= cols && right.len() == 0 ==> prompt_room(cols, caption, right)
            == cols - width_of(caption),
        right.len() > 0 && width_of(caption) + width_of(right) + 3 <= cols ==> prompt_room(
            cols,
            caption,
            right,
        ) == cols - width_of(right) - 2 - width_of(caption),
{
    reveal_strlit(" ");
    assert(" "@ =~= seq![' ']);
}

}
