//! `--doctor`: the facts a first run needs, one per line, and the one question
//! a running program does not ask: does the terminal speak the two protocols
//! the pane assumes.
//!
//! The terminal is asked everything in one write, and DA1 last. Every terminal
//! answers that, in order, so the answers to the questions before it have
//! arrived by the time it does.
use vstd::prelude::*;
use vstd::slice::slice_subrange;

use crate::appearance::is_dark;
use crate::bytes::{push_text, utf8};
use crate::glass::lemma_first_piece;
use crate::light::dark;
use crate::screen::blanks;
use crate::strings::{
    char_lists, chars_of, decimal, decimal_string, index_of, is_digit, is_digit_char, is_hex,
    is_hex_char, is_word, lemma_decimal, lemma_index_of, lemma_index_of_is, number, occurs, occurs_at, parse_number, pieces, position,
    split, string_of,
};
use crate::text::{sanitize, sanitized};

verus! {

/// How long the terminal is given to answer everything, in seconds.
pub const TERMINAL_TIMEOUT: u64 = 2;

/// The image id the graphics query is asked under, which is not the running
/// program's.
pub const QUERY_ID: u32 = 31;

/// The graphics query, the keyboard query and DA1, in that order.
pub const ASK: &'static str = "\u{1b}_Gi=31,s=1,v=1,a=q,t=d,f=24;AAAA\u{1b}\\\u{1b}[?u\u{1b}[c";

/// Whether the mouse can be reported in pixels.
pub const ASK_PIXEL_MOUSE: &'static str = "\u{1b}[?1016$p";

/// What the background is.
pub const ASK_BACKGROUND: &'static str = "\u{1b}]11;?\u{1b}\\";

/// How big a cell is.
pub const ASK_CELL_SIZE: &'static str = "\u{1b}[16t";

/// Every question, in the one write: the pane's three, then [`ASK`].
pub fn ask() -> (r: Vec<u8>)
    ensures
        r@ == utf8(ASK_PIXEL_MOUSE@) + utf8(ASK_BACKGROUND@) + utf8(ASK_CELL_SIZE@) + utf8(ASK@),
{
    let mut out: Vec<u8> = Vec::new();
    push_text(&mut out, ASK_PIXEL_MOUSE);
    push_text(&mut out, ASK_BACKGROUND);
    push_text(&mut out, ASK_CELL_SIZE);
    push_text(&mut out, ASK);
    proof {
        assert(out@ =~= utf8(ASK_PIXEL_MOUSE@) + utf8(ASK_BACKGROUND@) + utf8(ASK_CELL_SIZE@)
            + utf8(ASK@));
    }
    out
}

/// What the bytes the terminal sent back say.
#[derive(Debug, PartialEq, Eq)]
pub struct TerminalAnswer {
    /// `Some(Ok(()))` on `;OK`, `Some(Err(text))` on anything else, and `None`
    /// when no answer for [`QUERY_ID`] came.
    pub graphics: Option<Result<(), String>>,
    /// The flags in `CSI ? <n> u`, `None` when it did not come.
    pub keyboard: Option<u32>,
    /// Whether `CSI ? … c` came: the sentinel.
    pub da1: bool,
    /// The answer for the mode of the mouse in pixels.
    pub pixel_mouse: Option<u8>,
    /// The background colour.
    pub background: Option<(u8, u8, u8)>,
    /// The cell, width by height.
    pub cell: Option<(u32, u32)>,
}

impl Default for TerminalAnswer {
    fn default() -> (r: TerminalAnswer)
        ensures
            r.graphics is None,
            r.keyboard is None,
            !r.da1,
            r.pixel_mouse is None,
            r.background is None,
            r.cell is None,
    {
        TerminalAnswer {
            graphics: None,
            keyboard: None,
            da1: false,
            pixel_mouse: None,
            background: None,
            cell: None,
        }
    }
}

/// Bytes as characters, one each.
pub open spec fn latin(bytes: Seq<u8>) -> Seq<char> {
    bytes.map_values(|b: u8| b as char)
}

/// Bytes as characters, one each.
pub(crate) fn latin_chars(bytes: &[u8]) -> (r: Vec<char>)
    ensures
        r@ == latin(bytes@),
{
    let mut out: Vec<char> = Vec::new();
    let mut i: usize = 0;
    while i < bytes.len()
        invariant
            i <= bytes@.len(),
            out@.len() == i,
            forall|k: int| 0 <= k < i ==> #[trigger] out@[k] == bytes@[k] as char,
        decreases bytes@.len() - i,
    {
        out.push(bytes[i] as char);
        i += 1;
    }
    proof {
        assert(out@ =~= latin(bytes@));
    }
    out
}

/// What `String::from_utf8_lossy` makes of some bytes.
pub uninterp spec fn lossy_text(bytes: Seq<u8>) -> Seq<char>;

/// The text that some bytes are: when they are not one, with something in place
/// of what is not.
pub open spec fn lossily(bytes: Seq<u8>) -> Seq<char> {
    if vstd::utf8::valid_utf8(bytes) {
        vstd::utf8::decode_utf8(bytes)
    } else {
        lossy_text(bytes)
    }
}

/// `String::from_utf8_lossy`: the text that the bytes are, when they are
/// UTF-8; a function of the bytes in any case. What stands for bytes that are
/// not is not stated.
#[verifier::external_body]
pub(crate) fn lossy(bytes: &[u8]) -> (r: String)
    ensures
        r@ == lossy_text(bytes@),
        vstd::utf8::valid_utf8(bytes@) ==> r@ == vstd::utf8::decode_utf8(bytes@),
{
    String::from_utf8_lossy(bytes).into_owned()
}

// ---- what is asked of the protocols ----

/// What has been heard about the two protocols.
#[verifier::ext_equal]
pub struct Reply {
    /// Nothing until it was answered; then what was wrong, if something was.
    pub graphics: Option<Option<Seq<char>>>,
    pub keyboard: Option<u32>,
    pub da1: bool,
}

/// The answer in the body of a graphics command, when it is the answer to
/// [`QUERY_ID`].
pub open spec fn graphics_said(command: Seq<u8>) -> Option<Option<Seq<char>>> {
    let t = latin(command);
    let i = index_of(t, ';');
    if i < t.len() && pieces(t.take(i), ',').contains("i="@ + decimal(QUERY_ID as nat)) {
        let payload = command.skip(i + 1);
        Some(
            if latin(payload) == "OK"@ {
                None
            } else {
                Some(sanitized(lossily(payload)))
            },
        )
    } else {
        None
    }
}

/// The first place from `from` on where a text stands: the end when there is
/// none.
pub open spec fn next_at(t: Seq<char>, p: Seq<char>, from: int) -> int
    decreases t.len() - from,
{
    if from >= t.len() {
        t.len() as int
    } else if occurs_at(t, p, from) {
        from
    } else {
        next_at(t, p, from + 1)
    }
}

/// Where digits and semicolons end.
pub open spec fn params_end(t: Seq<char>, from: int) -> int
    decreases t.len() - from,
{
    if 0 <= from < t.len() && (is_digit(t[from]) || t[from] == ';') {
        params_end(t, from + 1)
    } else {
        from
    }
}

impl Reply {
    /// This after a report that starts at `i`, if one does.
    pub open spec fn reported(self, t: Seq<char>, i: int) -> Reply {
        if occurs_at(t, "\u{1b}[?"@, i) {
            let end = params_end(t, i + 3);
            if end < t.len() && t[end] == 'u' {
                Reply {
                    keyboard: if self.keyboard is Some {
                        self.keyboard
                    } else {
                        match number(t.subrange(i + 3, end), u32::MAX as nat) {
                            Some(n) => Some(n as u32),
                            None => None,
                        }
                    },
                    ..self
                }
            } else if end < t.len() && t[end] == 'c' {
                Reply { da1: true, ..self }
            } else {
                self
            }
        } else {
            self
        }
    }

    /// This after a graphics command: the first answer counts.
    pub open spec fn drawn(self, command: Seq<u8>) -> Reply {
        Reply {
            graphics: if self.graphics is Some {
                self.graphics
            } else {
                graphics_said(command)
            },
            ..self
        }
    }
}

/// What is heard from `i` on, after `a`: a graphics command is taken whole, and
/// one that does not end is the end.
pub open spec fn heard(bytes: Seq<u8>, i: int, a: Reply) -> Reply
    decreases bytes.len() - i,
{
    let t = latin(bytes);
    if i < 0 || i >= t.len() {
        a
    } else if occurs_at(t, "\u{1b}_G"@, i) {
        let end = next_at(t, "\u{1b}\\"@, i + 3);
        if end < i + 3 || end + 2 > t.len() {
            a
        } else {
            heard(bytes, end + 2, a.drawn(bytes.subrange(i + 3, end)))
        }
    } else {
        heard(bytes, i + 1, a.reported(t, i))
    }
}

// ---- what the pane asks ----

/// Where digits end.
pub open spec fn digits_stop(t: Seq<char>, from: int) -> int
    decreases t.len() - from,
{
    if 0 <= from < t.len() && is_digit(t[from]) {
        digits_stop(t, from + 1)
    } else {
        from
    }
}

/// The state of the mode of the mouse in pixels, reported at `i`.
pub open spec fn mode_at(t: Seq<char>, i: int) -> Option<u8> {
    let head = "\u{1b}[?1016;"@;
    let from = i + head.len();
    let end = digits_stop(t, from);
    if occurs_at(t, head, i) && occurs_at(t, "$y"@, end) {
        match number(t.subrange(from, end), 255) {
            Some(n) => Some(n as u8),
            None => None,
        }
    } else {
        None
    }
}

/// The size of a cell, width by height, reported at `i`.
pub open spec fn cell_at(t: Seq<char>, i: int) -> Option<(u32, u32)> {
    let head = "\u{1b}[6;"@;
    let from = i + head.len();
    let middle = digits_stop(t, from);
    let end = digits_stop(t, middle + 1);
    if occurs_at(t, head, i) && occurs_at(t, ";"@, middle) && occurs_at(t, "t"@, end) {
        match (
            number(t.subrange(from, middle), u32::MAX as nat),
            number(t.subrange(middle + 1, end), u32::MAX as nat),
        ) {
            (Some(h), Some(w)) => Some((w as u32, h as u32)),
            _ => None,
        }
    } else {
        None
    }
}

/// Where hexadecimal digits end.
pub open spec fn hex_stop(t: Seq<char>, from: int) -> int
    decreases t.len() - from,
{
    if 0 <= from < t.len() && is_hex(t[from]) {
        hex_stop(t, from + 1)
    } else {
        from
    }
}

/// The value of a hexadecimal digit.
pub open spec fn hex_digit(c: char) -> nat {
    if is_digit(c) {
        (c as int - '0' as int) as nat
    } else if 'a' <= c <= 'f' {
        (c as int - 'a' as int + 10) as nat
    } else {
        (c as int - 'A' as int + 10) as nat
    }
}

/// The value of hexadecimal digits.
pub open spec fn hex_number(s: Seq<char>) -> nat
    decreases s.len(),
{
    if s.len() == 0 {
        0
    } else {
        16 * hex_number(s.drop_last()) + hex_digit(s.last())
    }
}

/// The largest value of so many hexadecimal digits, of which there are one to
/// four.
pub open spec fn hex_largest(n: int) -> nat {
    if n == 1 {
        0xf
    } else if n == 2 {
        0xff
    } else if n == 3 {
        0xfff
    } else {
        0xffff
    }
}

/// A channel of a colour: one to four hexadecimal digits, of which all set is
/// all of it.
pub open spec fn channel(s: Seq<char>) -> Option<u8> {
    if 1 <= s.len() <= 4 {
        Some((hex_number(s) * 255 / hex_largest(s.len() as int)) as u8)
    } else {
        None
    }
}

/// The background colour, reported at `i`.
pub open spec fn colour_at(t: Seq<char>, i: int) -> Option<(u8, u8, u8)> {
    let head = "\u{1b}]11;rgb:"@;
    let from = i + head.len();
    let a = hex_stop(t, from);
    let b = hex_stop(t, a + 1);
    let c = hex_stop(t, b + 1);
    if occurs_at(t, head, i) && occurs_at(t, "/"@, a) && occurs_at(t, "/"@, b) && (occurs_at(
        t,
        "\u{7}"@,
        c,
    ) || occurs_at(t, "\u{1b}\\"@, c)) {
        match (
            channel(t.subrange(from, a)),
            channel(t.subrange(a + 1, b)),
            channel(t.subrange(b + 1, c)),
        ) {
            (Some(red), Some(green), Some(blue)) => Some((red, green, blue)),
            _ => None,
        }
    } else {
        None
    }
}

/// The last report of the mode before `n`.
pub open spec fn last_mode(t: Seq<char>, n: int) -> Option<u8>
    decreases n,
{
    if n <= 0 {
        None
    } else if mode_at(t, n - 1) is Some {
        mode_at(t, n - 1)
    } else {
        last_mode(t, n - 1)
    }
}

/// The last report of the background before `n`.
pub open spec fn last_colour(t: Seq<char>, n: int) -> Option<(u8, u8, u8)>
    decreases n,
{
    if n <= 0 {
        None
    } else if colour_at(t, n - 1) is Some {
        colour_at(t, n - 1)
    } else {
        last_colour(t, n - 1)
    }
}

/// The last report of the cell before `n`.
pub open spec fn last_cell(t: Seq<char>, n: int) -> Option<(u32, u32)>
    decreases n,
{
    if n <= 0 {
        None
    } else if cell_at(t, n - 1) is Some {
        cell_at(t, n - 1)
    } else {
        last_cell(t, n - 1)
    }
}

/// What was wrong with the graphics query, once it was answered.
pub open spec fn graphics_view(graphics: Option<Result<(), String>>) -> Option<Option<Seq<char>>> {
    match graphics {
        Some(Ok(_)) => Some(None),
        Some(Err(why)) => Some(Some(why@)),
        None => None,
    }
}

impl TerminalAnswer {
    /// What was heard about the two protocols.
    pub open spec fn protocols(self) -> Reply {
        Reply {
            graphics: graphics_view(self.graphics),
            keyboard: self.keyboard,
            da1: self.da1,
        }
    }
}

// ---- reading ----

/// The answer in the body of a graphics command.
fn graphics_answer(command: &[u8]) -> (r: Option<Result<(), String>>)
    ensures
        graphics_view(r) == graphics_said(command@),
{
    let t = latin_chars(command);
    let i = position(t.as_slice(), ';');
    proof {
        lemma_index_of(t@, ';');
    }
    if i >= t.len() {
        return None;
    }
    let control = slice_subrange(t.as_slice(), 0, i);
    proof {
        assert(control@ =~= t@.take(i as int));
    }
    let pairs = split(control, ',');
    let ours = "i=".to_owned().concat(decimal_string(QUERY_ID as u64).as_str());
    let ghost all = char_lists(pairs@);
    let mut k: usize = 0;
    let mut found = false;
    while k < pairs.len()
        invariant
            k <= pairs@.len(),
            all == char_lists(pairs@),
            found == exists|j: int| 0 <= j < k && #[trigger] all[j] == ours@,
        decreases pairs@.len() - k,
    {
        proof {
            assert(all[k as int] == pairs@[k as int]@);
        }
        if is_word(pairs[k].as_slice(), ours.as_str()) {
            found = true;
        }
        k += 1;
    }
    if !found {
        proof {
            assert(!all.contains(ours@));
        }
        return None;
    }
    proof {
        let j = choose|j: int| 0 <= j < k && #[trigger] all[j] == ours@;
        assert(all.contains(all[j]));
    }
    let payload = slice_subrange(command, i + 1, command.len());
    proof {
        assert(payload@ =~= command@.skip(i + 1));
    }
    if is_word(latin_chars(payload).as_slice(), "OK") {
        Some(Ok(()))
    } else {
        Some(Err(sanitize(lossy(payload).as_str())))
    }
}

/// The first place from `from` on where a text stands.
fn next_place(t: &[char], p: &[char], from: usize) -> (r: usize)
    requires
        from <= t@.len(),
    ensures
        r == next_at(t@, p@, from as int),
        from <= r <= t@.len(),
        r < t@.len() ==> occurs_at(t@, p@, r as int),
{
    let mut i: usize = from;
    while i < t.len()
        invariant
            from <= i <= t@.len(),
            next_at(t@, p@, from as int) == next_at(t@, p@, i as int),
        decreases t@.len() - i,
    {
        if occurs(t, p, i) {
            return i;
        }
        i += 1;
    }
    i
}

/// Where digits, and semicolons if they count, end.
fn stop(t: &[char], from: usize, semicolons: bool) -> (r: usize)
    requires
        from <= t@.len(),
    ensures
        from <= r <= t@.len(),
        semicolons ==> r == params_end(t@, from as int),
        !semicolons ==> r == digits_stop(t@, from as int),
{
    let mut i: usize = from;
    while i < t.len() && (is_digit_char(t[i]) || (semicolons && t[i] == ';'))
        invariant
            from <= i <= t@.len(),
            semicolons ==> params_end(t@, from as int) == params_end(t@, i as int),
            !semicolons ==> digits_stop(t@, from as int) == digits_stop(t@, i as int),
        decreases t@.len() - i,
    {
        i += 1;
    }
    i
}

/// What is heard about the two protocols.
fn read_protocols(bytes: &[u8], t: &[char]) -> (r: TerminalAnswer)
    requires
        t@ == latin(bytes@),
    ensures
        r.protocols() == heard(
            bytes@,
            0,
            (Reply { graphics: None, keyboard: None, da1: false }),
        ),
        r.pixel_mouse is None,
        r.background is None,
        r.cell is None,
{
    let mut answer = TerminalAnswer::default();
    let draw = chars_of("\u{1b}_G");
    let close = chars_of("\u{1b}\\");
    let csi = chars_of("\u{1b}[?");
    let ghost none = Reply { graphics: None, keyboard: None, da1: false };
    let mut i: usize = 0;
    proof {
        reveal_strlit("\u{1b}_G");
        reveal_strlit("\u{1b}\\");
        reveal_strlit("\u{1b}[?");
        assert(answer.protocols() =~= none);
    }
    while i < t.len()
        invariant
            i <= t@.len(),
            t@ == latin(bytes@),
            t@.len() == bytes@.len(),
            draw@ == "\u{1b}_G"@,
            close@ == "\u{1b}\\"@,
            csi@ == "\u{1b}[?"@,
            draw@.len() == 3,
            close@.len() == 2,
            csi@.len() == 3,
            none == (Reply { graphics: None, keyboard: None, da1: false }),
            answer.pixel_mouse is None,
            answer.background is None,
            answer.cell is None,
            heard(bytes@, 0, none) == heard(bytes@, i as int, answer.protocols()),
        decreases t@.len() - i,
    {
        let ghost before = answer.protocols();
        if occurs(t, draw.as_slice(), i) {
            let end = next_place(t, close.as_slice(), i + 3);
            if end >= t.len() {
                return answer;
            }
            let said = graphics_answer(slice_subrange(bytes, i + 3, end));
            if answer.graphics.is_none() {
                answer.graphics = said;
            }
            proof {
                assert(answer.protocols() =~= before.drawn(bytes@.subrange(i + 3, end as int)));
            }
            i = end + 2;
        } else {
            if occurs(t, csi.as_slice(), i) {
                let end = stop(t, i + 3, true);
                if end < t.len() && t[end] == 'u' {
                    if answer.keyboard.is_none() {
                        answer.keyboard = match parse_number(
                            slice_subrange(t, i + 3, end),
                            u32::MAX as u64,
                        ) {
                            Some(n) => Some(n as u32),
                            None => None,
                        };
                    }
                } else if end < t.len() && t[end] == 'c' {
                    answer.da1 = true;
                }
            }
            proof {
                assert(answer.protocols() =~= before.reported(t@, i as int));
            }
            i += 1;
        }
    }
    answer
}

/// Whether a word stands at `i`.
fn stands(t: &[char], word: &str, i: usize) -> (r: bool)
    ensures
        r == occurs_at(t@, word@, i as int),
{
    occurs(t, chars_of(word).as_slice(), i)
}

/// The state of the mode of the mouse in pixels, reported at `i`.
fn read_mode(t: &[char], i: usize) -> (r: Option<u8>)
    ensures
        r == mode_at(t@, i as int),
{
    let head = chars_of("\u{1b}[?1016;");
    if i >= t.len() {
        proof {
            reveal_strlit("\u{1b}[?1016;");
        }
        return None;
    }
    if !occurs(t, head.as_slice(), i) {
        return None;
    }
    let from = i + head.len();
    let end = stop(t, from, false);
    if !stands(t, "$y", end) {
        return None;
    }
    match parse_number(slice_subrange(t, from, end), 255) {
        Some(n) => Some(n as u8),
        None => None,
    }
}

/// The size of a cell, width by height, reported at `i`.
fn read_cell(t: &[char], i: usize) -> (r: Option<(u32, u32)>)
    ensures
        r == cell_at(t@, i as int),
{
    let head = chars_of("\u{1b}[6;");
    if i >= t.len() {
        proof {
            reveal_strlit("\u{1b}[6;");
        }
        return None;
    }
    if !occurs(t, head.as_slice(), i) {
        return None;
    }
    proof {
        reveal_strlit(";");
    }
    let from = i + head.len();
    let middle = stop(t, from, false);
    if !stands(t, ";", middle) {
        return None;
    }
    let end = stop(t, middle + 1, false);
    if !stands(t, "t", end) {
        return None;
    }
    match (
        parse_number(slice_subrange(t, from, middle), u32::MAX as u64),
        parse_number(slice_subrange(t, middle + 1, end), u32::MAX as u64),
    ) {
        (Some(h), Some(w)) => Some((w as u32, h as u32)),
        _ => None,
    }
}

/// Where hexadecimal digits end.
fn hex_end(t: &[char], from: usize) -> (r: usize)
    requires
        from <= t@.len(),
    ensures
        from <= r <= t@.len(),
        r == hex_stop(t@, from as int),
        forall|k: int| from <= k < r ==> is_hex(#[trigger] t@[k]),
{
    let mut i: usize = from;
    while i < t.len() && is_hex_char(t[i])
        invariant
            from <= i <= t@.len(),
            hex_stop(t@, from as int) == hex_stop(t@, i as int),
            forall|k: int| from <= k < i ==> is_hex(#[trigger] t@[k]),
        decreases t@.len() - i,
    {
        i += 1;
    }
    i
}

/// The value of a hexadecimal digit.
fn hex_value(c: char) -> (n: u32)
    requires
        is_hex(c),
    ensures
        n == hex_digit(c),
        n <= 15,
{
    if '0' <= c && c <= '9' {
        c as u32 - '0' as u32
    } else if 'a' <= c && c <= 'f' {
        c as u32 - 'a' as u32 + 10
    } else {
        c as u32 - 'A' as u32 + 10
    }
}

/// A channel of a colour.
fn read_channel(s: &[char]) -> (r: Option<u8>)
    requires
        forall|k: int| 0 <= k < s@.len() ==> is_hex(#[trigger] s@[k]),
    ensures
        r == channel(s@),
{
    if s.len() < 1 || s.len() > 4 {
        return None;
    }
    let mut n: u32 = 0;
    let mut most: u32 = 0;
    let mut i: usize = 0;
    proof {
        assert(s@.take(0) =~= Seq::<char>::empty());
    }
    while i < s.len()
        invariant
            i <= s@.len() <= 4,
            forall|k: int| 0 <= k < s@.len() ==> is_hex(#[trigger] s@[k]),
            n == hex_number(s@.take(i as int)),
            n <= most,
            i == 0 ==> most == 0,
            i == 1 ==> most == 0xf,
            i == 2 ==> most == 0xff,
            i == 3 ==> most == 0xfff,
            i == 4 ==> most == 0xffff,
        decreases s@.len() - i,
    {
        proof {
            assert(s@.take(i + 1).drop_last() =~= s@.take(i as int));
            assert(s@.take(i + 1).last() == s@[i as int]);
        }
        n = 16 * n + hex_value(s[i]);
        most = 16 * most + 15;
        i += 1;
    }
    proof {
        assert(s@.take(i as int) =~= s@);
        assert((n * 255) / (most as int) <= 255) by (nonlinear_arith)
            requires
                n <= most,
                most >= 1,
        ;
    }
    Some((n * 255 / most) as u8)
}

/// The background colour, reported at `i`.
fn read_colour(t: &[char], i: usize) -> (r: Option<(u8, u8, u8)>)
    ensures
        r == colour_at(t@, i as int),
{
    let head = chars_of("\u{1b}]11;rgb:");
    if i >= t.len() {
        proof {
            reveal_strlit("\u{1b}]11;rgb:");
        }
        return None;
    }
    if !occurs(t, head.as_slice(), i) {
        return None;
    }
    proof {
        reveal_strlit("/");
    }
    let from = i + head.len();
    let a = hex_end(t, from);
    if !stands(t, "/", a) {
        return None;
    }
    let b = hex_end(t, a + 1);
    if !stands(t, "/", b) {
        return None;
    }
    let c = hex_end(t, b + 1);
    if !stands(t, "\u{7}", c) && !stands(t, "\u{1b}\\", c) {
        return None;
    }
    match (
        read_channel(slice_subrange(t, from, a)),
        read_channel(slice_subrange(t, a + 1, b)),
        read_channel(slice_subrange(t, b + 1, c)),
    ) {
        (Some(red), Some(green), Some(blue)) => Some((red, green, blue)),
        _ => None,
    }
}

/// Read what came back. Keys typed while it was being waited for are in the
/// same bytes and change nothing: only the shapes that were asked for are
/// looked at.
pub fn read_answer(bytes: &[u8]) -> (r: TerminalAnswer)
    ensures
        r.protocols() == heard(
            bytes@,
            0,
            (Reply { graphics: None, keyboard: None, da1: false }),
        ),
        r.pixel_mouse == last_mode(latin(bytes@), bytes@.len() as int),
        r.background == last_colour(latin(bytes@), bytes@.len() as int),
        r.cell == last_cell(latin(bytes@), bytes@.len() as int),
{
    let t = latin_chars(bytes);
    let mut answer = read_protocols(bytes, t.as_slice());
    let mut i: usize = 0;
    while i < t.len()
        invariant
            i <= t@.len(),
            t@ == latin(bytes@),
            t@.len() == bytes@.len(),
            answer.protocols() == heard(
                bytes@,
                0,
                (Reply { graphics: None, keyboard: None, da1: false }),
            ),
            answer.pixel_mouse == last_mode(t@, i as int),
            answer.background == last_colour(t@, i as int),
            answer.cell == last_cell(t@, i as int),
        decreases t@.len() - i,
    {
        match read_mode(t.as_slice(), i) {
            Some(state) => {
                answer.pixel_mouse = Some(state);
            },
            None => {},
        }
        match read_colour(t.as_slice(), i) {
            Some(rgb) => {
                answer.background = Some(rgb);
            },
            None => {},
        }
        match read_cell(t.as_slice(), i) {
            Some(cell) => {
                answer.cell = Some(cell);
            },
            None => {},
        }
        i += 1;
    }
    answer
}

// ---- the report ----

/// The column the facts start in, after their names.
pub const LABEL: usize = 11;

/// A text filled up to [`LABEL`] cells.
pub open spec fn labelled(s: Seq<char>) -> Seq<char> {
    s + blanks(LABEL - s.len())
}

/// One fact, its name in the margin.
pub open spec fn said(name: Seq<char>, fact: Seq<char>) -> Seq<char> {
    labelled(name + ":"@) + fact
}

/// A line under the last fact, in the same column.
pub open spec fn added(fact: Seq<char>) -> Seq<char> {
    blanks(LABEL as int) + fact
}

/// A text filled up to [`LABEL`] cells.
fn label(s: &str) -> (r: String)
    ensures
        r@ == labelled(s@),
{
    let mut out = chars_of(s);
    let ghost before = out@;
    let mut n: usize = out.len();
    proof {
        assert(out@ =~= before + blanks(0));
    }
    while n < LABEL
        invariant
            before.len() <= n,
            n <= LABEL || n == before.len(),
            out@ == before + blanks(n - before.len()),
        decreases LABEL - n,
    {
        out.push(' ');
        n += 1;
        proof {
            assert(out@ =~= before + blanks(n - before.len()));
        }
    }
    proof {
        assert(blanks(n - before.len()) =~= blanks(LABEL - before.len()));
    }
    string_of(out.as_slice())
}

/// One fact, its name in the margin.
pub fn say(name: &str, fact: &str) -> (r: String)
    ensures
        r@ == said(name@, fact@),
{
    label(name.to_owned().concat(":").as_str()).concat(fact)
}

/// A line under the last fact, in the same column.
pub fn more(fact: &str) -> (r: String)
    ensures
        r@ == added(fact@),
{
    proof {
        reveal_strlit("");
        assert(""@ =~= Seq::<char>::empty());
        assert(labelled(""@) =~= blanks(LABEL as int));
    }
    label("").concat(fact)
}

/// Where the settings came from.
#[derive(Debug, PartialEq, Eq)]
pub struct Provenance {
    /// The file that was looked at, if one was.
    pub config: Option<String>,
    /// Whether it was there.
    pub found: bool,
    /// How many settings it had.
    pub settings: u64,
    /// What named the engine, if something did.
    pub engine_from: Option<String>,
}

/// The line about the settings file.
pub open spec fn config_said(p: Provenance) -> Seq<char> {
    said(
        "config"@,
        match p.config {
            Some(path) => if p.found {
                path@ + " ("@ + decimal(p.settings as nat) + " setting"@ + (if p.settings == 1 {
                    Seq::empty()
                } else {
                    "s"@
                }) + ")"@
            } else {
                "none (looked at "@ + path@ + ")"@
            },
            None => "none read"@,
        },
    )
}

/// The line about the settings file.
pub fn config_line(p: &Provenance) -> (r: String)
    ensures
        r@ == config_said(*p),
{
    match &p.config {
        Some(path) => if p.found {
            let mut fact = path.clone();
            fact.append(" (");
            fact.append(decimal_string(p.settings).as_str());
            fact.append(" setting");
            if p.settings != 1 {
                fact.append("s");
            }
            proof {
                assert(path@ + " ("@ + decimal(p.settings as nat) + " setting"@
                    + Seq::<char>::empty() =~= path@ + " ("@ + decimal(p.settings as nat)
                    + " setting"@);
            }
            fact.append(")");
            say("config", fact.as_str())
        } else {
            let mut fact = "none (looked at ".to_owned();
            fact.append(path.as_str());
            fact.append(")");
            say("config", fact.as_str())
        },
        None => say("config", "none read"),
    }
}

/// What came of starting the engine.
#[derive(Debug, PartialEq, Eq)]
pub enum Started {
    /// There is none, for this reason.
    Nowhere(String),
    /// It is at this path, and was not started, for this reason.
    NotStarted { path: String, why: String },
    /// It is at this path, was started, and did not answer, for this reason.
    Silent { path: String, why: String },
    /// It answered after so many seconds, and said what it is, if it did.
    Answered { path: String, took: String, product: Option<String> },
}

/// The texts of some strings.
pub open spec fn texts(v: Seq<String>) -> Seq<Seq<char>> {
    v.map_values(|s: String| s@)
}

/// Where the engine came from.
pub open spec fn source_said(from: Option<String>) -> Seq<char> {
    match from {
        Some(source) => "from "@ + source@,
        None => "on PATH"@,
    }
}

/// The lines about the engine.
pub open spec fn engine_said(started: Started, from: Option<String>) -> Seq<Seq<char>> {
    match started {
        Started::Nowhere(why) => seq![said("engine"@, "none: "@ + why@)],
        Started::NotStarted { path, why } => seq![
            said("engine"@, path@),
            added(source_said(from)),
            added("not started: "@ + why@),
        ],
        Started::Silent { path, why } => seq![
            said("engine"@, path@),
            added(source_said(from)),
            added("did not answer: "@ + sanitized(why@)),
        ],
        Started::Answered { path, took, product } => seq![
            said("engine"@, path@),
            added(source_said(from)),
            added(
                "answered on its pipe in "@ + took@ + " s: "@ + sanitized(
                    match product {
                        Some(name) => name@,
                        None => "no product named"@,
                    },
                ),
            ),
        ],
    }
}

/// Where the engine came from.
fn source_line(from: &Option<String>) -> (r: String)
    ensures
        r@ == added(source_said(*from)),
{
    match from {
        Some(source) => more("from ".to_owned().concat(source.as_str()).as_str()),
        None => more("on PATH"),
    }
}

/// The lines about the engine, and whether it answered.
pub fn engine_lines(started: &Started, from: &Option<String>) -> (r: (Vec<String>, bool))
    ensures
        texts(r.0@) == engine_said(*started, *from),
        r.1 == (*started is Answered),
{
    let mut out: Vec<String> = Vec::new();
    let answered = match started {
        Started::Nowhere(why) => {
            out.push(say("engine", "none: ".to_owned().concat(why.as_str()).as_str()));
            false
        },
        Started::NotStarted { path, why } => {
            out.push(say("engine", path.as_str()));
            out.push(source_line(from));
            out.push(more("not started: ".to_owned().concat(why.as_str()).as_str()));
            false
        },
        Started::Silent { path, why } => {
            out.push(say("engine", path.as_str()));
            out.push(source_line(from));
            out.push(
                more("did not answer: ".to_owned().concat(sanitize(why.as_str()).as_str()).as_str()),
            );
            false
        },
        Started::Answered { path, took, product } => {
            out.push(say("engine", path.as_str()));
            out.push(source_line(from));
            let name = match product {
                Some(name) => sanitize(name.as_str()),
                None => sanitize("no product named"),
            };
            let mut fact = "answered on its pipe in ".to_owned();
            fact.append(took.as_str());
            fact.append(" s: ");
            fact.append(name.as_str());
            out.push(more(fact.as_str()));
            true
        },
    };
    proof {
        assert(texts(out@) =~= engine_said(*started, *from));
    }
    (out, answered)
}

/// Where the profile is kept.
#[derive(Debug, PartialEq, Eq)]
pub enum Kept {
    /// Nowhere: it goes when the engine does.
    Temporary,
    /// Here, and whether it is there already.
    At { dir: String, exists: bool },
    /// It cannot be told, for this reason.
    Unknown(String),
}

/// The line about the profile.
pub open spec fn profile_said(kept: Kept) -> Seq<char> {
    said(
        "profile"@,
        match kept {
            Kept::Temporary => "temporary, thrown away on exit"@,
            Kept::At { dir, exists } => dir@ + " ("@ + (if exists {
                "exists"@
            } else {
                "not made yet"@
            }) + ")"@,
            Kept::Unknown(why) => why@,
        },
    )
}

/// The line about the profile.
pub fn profile_line(kept: &Kept) -> (r: String)
    ensures
        r@ == profile_said(*kept),
{
    match kept {
        Kept::Temporary => say("profile", "temporary, thrown away on exit"),
        Kept::At { dir, exists } => {
            let mut fact = dir.clone();
            fact.append(" (");
            fact.append(
                if *exists {
                    "exists"
                } else {
                    "not made yet"
                },
            );
            fact.append(")");
            say("profile", fact.as_str())
        },
        Kept::Unknown(why) => say("profile", why.as_str()),
    }
}

/// The line about the downloads.
pub fn downloads_line(dir: &Result<String, String>) -> (r: String)
    ensures
        r@ == said(
            "downloads"@,
            match *dir {
                Ok(path) => path@,
                Err(why) => why@,
            },
        ),
{
    match dir {
        Ok(path) => say("downloads", path.as_str()),
        Err(why) => say("downloads", why.as_str()),
    }
}

/// The line about shared memory: whether a frame could be made there, and how
/// that is said on this system.
pub fn shm_line(made: &Result<(), String>, how: &str, how_not: &str) -> (r: String)
    ensures
        r@ == said(
            "shared memory"@,
            match *made {
                Ok(_) => how@ + ", so frames go as t=s"@,
                Err(e) => how_not@ + " ("@ + e@ + "), so frames go inline as base64"@,
            },
        ),
{
    match made {
        Ok(_) => say("shared memory", how.to_owned().concat(", so frames go as t=s").as_str()),
        Err(e) => {
            let mut fact = how_not.to_owned();
            fact.append(" (");
            fact.append(e.as_str());
            fact.append("), so frames go inline as base64");
            say("shared memory", fact.as_str())
        },
    }
}

/// What came of asking the terminal.
#[derive(Debug, PartialEq, Eq)]
pub enum Asked {
    /// There is none to ask.
    NotATerminal,
    /// It could not be asked, for this reason.
    Cannot(String),
    /// What it answered.
    Heard(TerminalAnswer),
}

/// What is said about the graphics protocol.
pub open spec fn graphics_words(graphics: Option<Option<Seq<char>>>) -> Seq<char> {
    match graphics {
        Some(None) => "yes"@,
        Some(Some(why)) => "no ("@ + why + ")"@,
        None => "no (no answer to the query)"@,
    }
}

/// What is said about the keyboard protocol.
pub open spec fn keyboard_words(keyboard: Option<u32>) -> Seq<char> {
    match keyboard {
        Some(flags) => if flags == 0 {
            "keyboard protocol: yes (no flags pushed)"@
        } else {
            "keyboard protocol: yes (flags "@ + decimal(flags as nat) + " pushed)"@
        },
        None => "keyboard protocol: no (no answer to CSI ? u)"@,
    }
}

/// What is said about the mouse.
pub open spec fn mouse_words(state: Option<u8>) -> Seq<char> {
    if state is Some && 1 <= state->0 <= 3 {
        "mouse in pixels: yes"@
    } else {
        "mouse in pixels: no (cells)"@
    }
}

/// A hexadecimal digit.
pub open spec fn hex_char(n: int) -> char {
    if n < 10 {
        ('0' as int + n) as char
    } else {
        ('a' as int + n - 10) as char
    }
}

/// A byte as two hexadecimal digits.
pub open spec fn hex_byte(b: u8) -> Seq<char> {
    seq![hex_char(b as int / 16), hex_char(b as int % 16)]
}

/// What is said about the background.
pub open spec fn background_words(rgb: (u8, u8, u8)) -> Seq<char> {
    "background: #"@ + hex_byte(rgb.0) + hex_byte(rgb.1) + hex_byte(rgb.2) + ", "@ + (if dark(rgb) {
        "dark"@
    } else {
        "light"@
    })
}

/// Two numbers with a cross between.
pub open spec fn crossed(size: (u32, u32)) -> Seq<char> {
    decimal(size.0 as nat) + "x"@ + decimal(size.1 as nat)
}

/// What is said about the cells, if anything: the size of one in pixels, and
/// how many there are.
pub open spec fn cell_words(cell: Option<(u32, u32)>, cells: Option<(u32, u32)>) -> Option<
    Seq<char>,
> {
    match (cell, cells) {
        (Some(px), Some(n)) => Some("cell: "@ + crossed(px) + " px, "@ + crossed(n) + " cells"@),
        (Some(px), None) => Some("cell: "@ + crossed(px) + " px"@),
        (None, Some(n)) => Some("cell: not answered, "@ + crossed(n) + " cells"@),
        (None, None) => None,
    }
}

/// A line under the last fact, if there is one.
pub open spec fn perhaps(fact: Option<Seq<char>>) -> Seq<Seq<char>> {
    match fact {
        Some(fact) => seq![added(fact)],
        None => Seq::empty(),
    }
}

/// The lines about a terminal that answered.
pub open spec fn answer_said(answer: TerminalAnswer, cells: Option<(u32, u32)>) -> Seq<Seq<char>> {
    seq![
        said("terminal"@, "graphics protocol: "@ + graphics_words(graphics_view(answer.graphics))),
        added(keyboard_words(answer.keyboard)),
        added(mouse_words(answer.pixel_mouse)),
    ] + perhaps(
        match answer.background {
            Some(rgb) => Some(background_words(rgb)),
            None => None,
        },
    ) + perhaps(cell_words(answer.cell, cells))
}

/// A terminal that answered nothing that decides.
pub open spec fn silent(answer: TerminalAnswer) -> bool {
    !answer.da1 && answer.graphics is None && answer.keyboard is None
}

/// The lines about the terminal.
pub open spec fn terminal_said(asked: Asked, cells: Option<(u32, u32)>) -> Seq<Seq<char>> {
    match asked {
        Asked::NotATerminal => seq![
            said("terminal"@, "stdin/stdout is not a terminal; nothing asked"@),
        ],
        Asked::Cannot(e) => seq![said("terminal"@, "cannot ask: "@ + e@)],
        Asked::Heard(answer) => if silent(answer) {
            seq![
                said(
                    "terminal"@,
                    "no answer in "@ + decimal(TERMINAL_TIMEOUT as nat)
                        + " s: not a terminal that answers queries (tmux without allow-passthrough? a log?)"@,
                ),
            ]
        } else {
            answer_said(answer, cells)
        },
    }
}

/// Whether the terminal is one to run in: none to ask is no reason against, and
/// one that was asked has to have answered the graphics query. The keyboard
/// protocol alone missing is a warning.
pub open spec fn terminal_will_do(asked: Asked) -> bool {
    match asked {
        Asked::NotATerminal => true,
        Asked::Cannot(_) => false,
        Asked::Heard(answer) => !silent(answer) && answer.graphics matches Some(Ok(_)),
    }
}

/// A hexadecimal digit.
fn hex_of(n: u8) -> (c: char)
    requires
        n < 16,
    ensures
        c == hex_char(n as int),
{
    if n < 10 {
        (48 + n) as char
    } else {
        (87 + n) as char
    }
}

/// Add a byte as two hexadecimal digits.
fn push_hex(out: &mut String, b: u8)
    ensures
        final(out)@ == old(out)@ + hex_byte(b),
{
    let ghost before = out@;
    out.push(hex_of(b / 16));
    out.push(hex_of(b % 16));
    proof {
        assert(out@ =~= before + hex_byte(b));
    }
}

/// Add two numbers with a cross between.
fn push_crossed(out: &mut String, size: (u32, u32))
    ensures
        final(out)@ == old(out)@ + crossed(size),
{
    let ghost before = out@;
    out.append(decimal_string(size.0 as u64).as_str());
    out.append("x");
    out.append(decimal_string(size.1 as u64).as_str());
    proof {
        assert(out@ =~= before + crossed(size));
    }
}

/// The lines about a terminal that answered.
fn answer_lines(answer: &TerminalAnswer, cells: Option<(u32, u32)>) -> (r: Vec<String>)
    ensures
        texts(r@) == answer_said(*answer, cells),
{
    let mut out: Vec<String> = Vec::new();
    let graphics = match &answer.graphics {
        Some(Ok(_)) => "yes".to_owned(),
        Some(Err(why)) => "no (".to_owned().concat(why.as_str()).concat(")"),
        None => "no (no answer to the query)".to_owned(),
    };
    out.push(say("terminal", "graphics protocol: ".to_owned().concat(graphics.as_str()).as_str()));
    let keyboard = match answer.keyboard {
        Some(flags) => if flags == 0 {
            "keyboard protocol: yes (no flags pushed)".to_owned()
        } else {
            let mut words = "keyboard protocol: yes (flags ".to_owned();
            words.append(decimal_string(flags as u64).as_str());
            words.append(" pushed)");
            words
        },
        None => "keyboard protocol: no (no answer to CSI ? u)".to_owned(),
    };
    out.push(more(keyboard.as_str()));
    let pixels = match answer.pixel_mouse {
        Some(state) => 1 <= state && state <= 3,
        None => false,
    };
    out.push(
        more(
            if pixels {
                "mouse in pixels: yes"
            } else {
                "mouse in pixels: no (cells)"
            },
        ),
    );
    let ghost three = texts(out@);
    match answer.background {
        Some(rgb) => {
            let mut words = "background: #".to_owned();
            push_hex(&mut words, rgb.0);
            push_hex(&mut words, rgb.1);
            push_hex(&mut words, rgb.2);
            words.append(", ");
            words.append(
                if is_dark(rgb) {
                    "dark"
                } else {
                    "light"
                },
            );
            out.push(more(words.as_str()));
        },
        None => {},
    }
    proof {
        assert(texts(out@) =~= three + perhaps(
            match answer.background {
                Some(rgb) => Some(background_words(rgb)),
                None => None,
            },
        ));
    }
    let ghost four = texts(out@);
    let words = match (answer.cell, cells) {
        (Some(px), Some(n)) => {
            let mut words = "cell: ".to_owned();
            push_crossed(&mut words, px);
            words.append(" px, ");
            push_crossed(&mut words, n);
            words.append(" cells");
            Some(words)
        },
        (Some(px), None) => {
            let mut words = "cell: ".to_owned();
            push_crossed(&mut words, px);
            words.append(" px");
            Some(words)
        },
        (None, Some(n)) => {
            let mut words = "cell: not answered, ".to_owned();
            push_crossed(&mut words, n);
            words.append(" cells");
            Some(words)
        },
        (None, None) => None,
    };
    match words {
        Some(words) => out.push(more(words.as_str())),
        None => {},
    }
    proof {
        assert(texts(out@) =~= four + perhaps(cell_words(answer.cell, cells)));
        assert(texts(out@) =~= answer_said(*answer, cells));
    }
    out
}

/// The lines about the terminal, and whether it is one to run in: `cells` is
/// how many it has, columns by rows, when that is known.
pub fn terminal_lines(asked: &Asked, cells: Option<(u32, u32)>) -> (r: (Vec<String>, bool))
    ensures
        texts(r.0@) == terminal_said(*asked, cells),
        r.1 == terminal_will_do(*asked),
{
    let mut out: Vec<String> = Vec::new();
    match asked {
        Asked::NotATerminal => {
            out.push(say("terminal", "stdin/stdout is not a terminal; nothing asked"));
            proof {
                assert(texts(out@) =~= terminal_said(*asked, cells));
            }
            (out, true)
        },
        Asked::Cannot(e) => {
            out.push(say("terminal", "cannot ask: ".to_owned().concat(e.as_str()).as_str()));
            proof {
                assert(texts(out@) =~= terminal_said(*asked, cells));
            }
            (out, false)
        },
        Asked::Heard(answer) => {
            if !answer.da1 && answer.graphics.is_none() && answer.keyboard.is_none() {
                let mut words = "no answer in ".to_owned();
                words.append(decimal_string(TERMINAL_TIMEOUT).as_str());
                words.append(
                    " s: not a terminal that answers queries (tmux without allow-passthrough? a log?)",
                );
                out.push(say("terminal", words.as_str()));
                proof {
                    assert(texts(out@) =~= terminal_said(*asked, cells));
                }
                return (out, false);
            }
            let good = match &answer.graphics {
                Some(Ok(_)) => true,
                _ => false,
            };
            (answer_lines(answer, cells), good)
        },
    }
}

// ---- laws ----

/// A byte that starts no answer changes nothing: keys typed during the wait are
/// passed over one by one.
pub proof fn law_other_bytes_change_nothing(bytes: Seq<u8>, i: int, a: Reply)
    requires
        0 <= i < bytes.len(),
        bytes[i] != 0x1b,
    ensures
        heard(bytes, i, a) == heard(bytes, i + 1, a),
{
    reveal_strlit("\u{1b}_G");
    reveal_strlit("\u{1b}[?");
    let t = latin(bytes);
    assert(t[i] == bytes[i] as char);
    if occurs_at(t, "\u{1b}_G"@, i) {
        assert(t.subrange(i, i + 3)[0] == '\u{1b}');
    }
    if occurs_at(t, "\u{1b}[?"@, i) {
        assert(t.subrange(i, i + 3)[0] == '\u{1b}');
    }
}

/// The first answer counts: once the graphics or the keyboard query has been
/// answered, or the sentinel has come, nothing that follows takes it back.
pub proof fn law_an_answer_stands(bytes: Seq<u8>, i: int, a: Reply)
    ensures
        a.graphics is Some ==> heard(bytes, i, a).graphics == a.graphics,
        a.keyboard is Some ==> heard(bytes, i, a).keyboard == a.keyboard,
        a.da1 ==> heard(bytes, i, a).da1,
    decreases bytes.len() - i,
{
    let t = latin(bytes);
    if 0 <= i < t.len() {
        if occurs_at(t, "\u{1b}_G"@, i) {
            let end = next_at(t, "\u{1b}\\"@, i + 3);
            if i + 3 <= end && end + 2 <= t.len() {
                law_an_answer_stands(bytes, end + 2, a.drawn(bytes.subrange(i + 3, end)));
            }
        } else {
            law_an_answer_stands(bytes, i + 1, a.reported(t, i));
        }
    }
}

/// Silence is no answer.
pub proof fn law_silence_is_no_answer(a: Reply)
    ensures
        heard(Seq::empty(), 0, a) == a,
{
}

// ---- laws of what an answer says ----

proof fn lemma_digits_stop(t: Seq<char>, from: int, end: int)
    requires
        0 <= from <= end <= t.len(),
        forall|i: int| from <= i < end ==> is_digit(#[trigger] t[i]),
        end < t.len() ==> !is_digit(t[end]),
    ensures
        digits_stop(t, from) == end,
    decreases end - from,
{
    if from < end {
        assert(is_digit(t[from]));
        lemma_digits_stop(t, from + 1, end);
    }
}

proof fn lemma_decimal_is_a_number(n: nat, max: nat)
    requires
        n <= max,
    ensures
        number(decimal(n), max) == Some(n),
        decimal(n).len() > 0,
        forall|i: int| 0 <= i < decimal(n).len() ==> is_digit(#[trigger] decimal(n)[i]),
{
    lemma_decimal(n);
    let s = decimal(n);
    assert(is_digit(s[0]));
}

/// The terminal says how large a cell is, height first, wherever in its answer it
/// does, and it is told width first.
pub proof fn law_a_cell_is_as_the_terminal_says(before: Seq<char>, after: Seq<char>, w: u32, h: u32)
    ensures
        cell_at(
            before + "\u{1b}[6;"@ + decimal(h as nat) + ";"@ + decimal(w as nat) + "t"@ + after,
            before.len() as int,
        ) == Some((w, h)),
{
    let (a, b) = (decimal(h as nat), decimal(w as nat));
    let t = before + "\u{1b}[6;"@ + a + ";"@ + b + "t"@ + after;
    reveal_strlit("\u{1b}[6;");
    reveal_strlit(";");
    reveal_strlit("t");
    lemma_decimal_is_a_number(h as nat, u32::MAX as nat);
    lemma_decimal_is_a_number(w as nat, u32::MAX as nat);
    let i = before.len() as int;
    let from = i + 4;
    let middle = from + a.len();
    let end = middle + 1 + b.len();
    assert(t.subrange(i, i + 4) =~= "\u{1b}[6;"@);
    assert(t.subrange(from, middle) =~= a);
    assert(t.subrange(middle, middle + 1) =~= ";"@);
    assert(t.subrange(middle + 1, end) =~= b);
    assert(t.subrange(end, end + 1) =~= "t"@);
    assert forall|k: int| from <= k < middle implies is_digit(#[trigger] t[k]) by {
        assert(t[k] == a[k - from]);
    }
    assert forall|k: int| middle + 1 <= k < end implies is_digit(#[trigger] t[k]) by {
        assert(t[k] == b[k - middle - 1]);
    }
    assert(t[middle] == ';');
    assert(t[end] == 't');
    lemma_digits_stop(t, from, middle);
    lemma_digits_stop(t, middle + 1, end);
}

/// The terminal says what becomes of reports in pixels by a number, and one, two
/// and three are that they can be had.
pub proof fn law_pixels_can_be_had_when_the_terminal_says_so(
    before: Seq<char>,
    after: Seq<char>,
    n: u8,
)
    ensures
        mode_at(
            before + "\u{1b}[?1016;"@ + decimal(n as nat) + "$y"@ + after,
            before.len() as int,
        ) == Some(n),
        mouse_words(Some(n)) == "mouse in pixels: yes"@ <==> 1 <= n <= 3,
{
    let a = decimal(n as nat);
    let t = before + "\u{1b}[?1016;"@ + a + "$y"@ + after;
    reveal_strlit("\u{1b}[?1016;");
    reveal_strlit("$y");
    reveal_strlit("mouse in pixels: yes");
    reveal_strlit("mouse in pixels: no (cells)");
    assert("mouse in pixels: yes"@.len() == 20);
    assert("mouse in pixels: no (cells)"@.len() == 27);
    lemma_decimal_is_a_number(n as nat, 255);
    let i = before.len() as int;
    let from = i + 8;
    let end = from + a.len();
    assert(t.subrange(i, i + 8) =~= "\u{1b}[?1016;"@);
    assert(t.subrange(from, end) =~= a);
    assert(t.subrange(end, end + 2) =~= "$y"@);
    assert forall|k: int| from <= k < end implies is_digit(#[trigger] t[k]) by {
        assert(t[k] == a[k - from]);
    }
    assert(t[end] == '$');
    lemma_digits_stop(t, from, end);
}

/// A colour is said in one to four hexadecimal digits a channel, and all of them
/// at their largest are full: two digits are the channel itself, one is it twice
/// over, and the most of anything is two hundred and fifty-five.
pub proof fn law_a_channel_is_scaled_to_a_byte(a: char, b: char)
    requires
        is_hex(a) && is_hex(b),
    ensures
        channel(seq![a, b]) == Some((16 * hex_digit(a) + hex_digit(b)) as u8),
        channel(seq![a]) == Some((17 * hex_digit(a)) as u8),
        channel(seq![a, b, a, b]) == channel(seq![a, b]),
        channel(seq!['f', 'f', 'f']) == Some(255u8),
        channel(Seq::empty()) is None,
        hex_digit('0') == 0 && hex_digit('9') == 9 && hex_digit('a') == 10 && hex_digit('f') == 15
            && hex_digit('A') == 10 && hex_digit('F') == 15,
{
    let (x, y) = (hex_digit(a), hex_digit(b));
    assert(x <= 15 && y <= 15);
    let one = seq![a];
    let two = seq![a, b];
    let three = seq![a, b, a];
    let four = seq![a, b, a, b];
    let full = seq!['f', 'f', 'f'];
    assert(one.drop_last() =~= Seq::<char>::empty());
    assert(two.drop_last() =~= one);
    assert(three.drop_last() =~= two);
    assert(four.drop_last() =~= three);
    assert(full.drop_last() =~= seq!['f', 'f']);
    assert(full.drop_last().drop_last() =~= seq!['f']);
    assert(full.drop_last().drop_last().drop_last() =~= Seq::<char>::empty());
    assert(hex_number(Seq::<char>::empty()) == 0);
    assert(hex_number(one) == x);
    assert(hex_number(two) == 16 * x + y);
    assert(hex_number(three) == 256 * x + 16 * y + x);
    assert(hex_number(four) == 257 * (16 * x + y));
    assert(hex_number(seq!['f']) == 15) by {
        assert(seq!['f'].drop_last() =~= Seq::<char>::empty());
    }
    assert(hex_number(seq!['f', 'f']) == 255) by {
        assert(seq!['f', 'f'].drop_last() =~= seq!['f']);
    }
    assert(hex_number(full) == 4095);
}

/// The terminal draws pictures when it says so to the question that was asked,
/// and otherwise says why not.
pub proof fn law_the_terminal_says_whether_it_draws(why: Seq<u8>)
    ensures
        graphics_said(seq![0x69u8, 0x3d, 0x33, 0x31, 0x3b, 0x4f, 0x4b]) == Some(
            None::<Seq<char>>,
        ),
        why != seq![0x4fu8, 0x4b] ==> graphics_said(seq![0x69u8, 0x3d, 0x33, 0x31, 0x3b] + why)
            == Some(Some(sanitized(lossily(why)))),
        graphics_said(seq![0x69u8, 0x3d, 0x33, 0x32, 0x3b, 0x4f, 0x4b]) is None,
{
    reveal_strlit("i=");
    reveal_strlit("OK");
    lemma_question_number();
    let head = seq![0x69u8, 0x3d, 0x33, 0x31, 0x3b];
    let ok = seq![0x4fu8, 0x4b];
    let mine = seq!['i', '=', '3', '1'];
    assert("i="@ + decimal(31) =~= mine);
    assert(seq![0x69u8, 0x3d, 0x33, 0x31, 0x3b, 0x4f, 0x4b] =~= head + ok);
    assert(!mine.contains(','));
    lemma_first_piece(mine, Seq::empty(), ',');
    assert forall|rest: Seq<u8>| #![trigger head + rest]
        {
            let t = latin(head + rest);
            &&& index_of(t, ';') == 4
            &&& t.take(4) == mine
            &&& (head + rest).skip(5) == rest
        } by {
        let t = latin(head + rest);
        assert(t[0] == 'i' && t[1] == '=' && t[2] == '3' && t[3] == '1' && t[4] == ';');
        lemma_index_of_is(t, ';', 4);
        assert(t.take(4) =~= mine);
        assert((head + rest).skip(5) =~= rest);
    }
    assert(seq![mine].contains(mine)) by {
        assert(seq![mine][0] == mine);
    }
    assert(latin(ok) =~= "OK"@);
    if latin(why) == "OK"@ {
        assert(why.len() == 2);
        assert(latin(why)[0] == 'O' && latin(why)[1] == 'K');
        assert(why =~= ok);
    }
    let other = seq![0x69u8, 0x3d, 0x33, 0x32, 0x3b, 0x4f, 0x4b];
    let t = latin(other);
    let theirs = seq!['i', '=', '3', '2'];
    assert(t[0] == 'i' && t[1] == '=' && t[2] == '3' && t[3] == '2' && t[4] == ';');
    lemma_index_of_is(t, ';', 4);
    assert(t.take(4) =~= theirs);
    assert(!theirs.contains(','));
    lemma_first_piece(theirs, Seq::empty(), ',');
    assert(!seq![theirs].contains(mine)) by {
        assert(theirs[3] != mine[3]);
    }
}

proof fn lemma_question_number()
    ensures
        decimal(31) == seq!['3', '1'],
{
    reveal_with_fuel(decimal, 3);
    assert(decimal(31) =~= seq!['3', '1']);
}

/// What a terminal must do to be driven is draw; one that is not asked is not held
/// to it, and one that cannot be asked will not do.
pub proof fn law_a_terminal_must_draw(answer: TerminalAnswer, e: String)
    ensures
        terminal_will_do(Asked::NotATerminal),
        !terminal_will_do(Asked::Cannot(e)),
        terminal_will_do(Asked::Heard(answer)) <==> (answer.graphics matches Some(Ok(_))),
{
}

/// What is said stands in one column, behind its name and a colon.
pub proof fn law_what_is_said_stands_in_a_column(name: Seq<char>, fact: Seq<char>)
    requires
        name.len() < 11,
    ensures
        said(name, fact).take(name.len() as int) == name,
        said(name, fact)[name.len() as int] == ':',
        said(name, fact).skip(11) == fact,
        forall|i: int| name.len() < i < 11 ==> said(name, fact)[i] == ' ',
        added(fact).skip(11) == fact,
        forall|i: int| 0 <= i < 11 ==> added(fact)[i] == ' ',
{
    reveal_strlit(":");
    let all = said(name, fact);
    assert(all.take(name.len() as int) =~= name);
    assert(all.skip(11) =~= fact);
    assert(added(fact).skip(11) =~= fact);
}

/// What is said of the terminal is what it answered: that it draws or why not, the
/// keyboard's flags, the background by its digits and as dark or light, and the
/// size of a cell.
pub proof fn law_the_terminal_is_said_as_it_answered(
    why: Seq<char>,
    flags: u32,
    rgb: (u8, u8, u8),
    cell: (u32, u32),
    cells: (u32, u32),
)
    ensures
        graphics_words(Some(None)) == "yes"@,
        graphics_words(Some(Some(why))) == "no ("@ + why + ")"@,
        graphics_words(None) == "no (no answer to the query)"@,
        flags > 0 ==> keyboard_words(Some(flags)) == "keyboard protocol: yes (flags "@ + decimal(
            flags as nat,
        ) + " pushed)"@,
        keyboard_words(None) == "keyboard protocol: no (no answer to CSI ? u)"@,
        background_words(rgb).take(13) == "background: #"@,
        background_words(rgb).subrange(13, 19) == hex_byte(rgb.0) + hex_byte(rgb.1) + hex_byte(
            rgb.2,
        ),
        background_words(rgb).skip(21) == if dark(rgb) {
            "dark"@
        } else {
            "light"@
        },
        cell_words(Some(cell), Some(cells)) == Some(
            "cell: "@ + (decimal(cell.0 as nat) + "x"@ + decimal(cell.1 as nat)) + " px, "@ + (
            decimal(cells.0 as nat) + "x"@ + decimal(cells.1 as nat)) + " cells"@,
        ),
        cell_words(None, None) is None,
{
    reveal_strlit("background: #");
    reveal_strlit(", ");
    let all = background_words(rgb);
    assert(all.take(13) =~= "background: #"@);
    assert(all.subrange(13, 19) =~= hex_byte(rgb.0) + hex_byte(rgb.1) + hex_byte(rgb.2));
    assert(all.skip(21) =~= if dark(rgb) {
        "dark"@
    } else {
        "light"@
    });
}

/// A byte in two digits is the byte.
pub proof fn law_two_digits_are_the_byte(b: u8)
    ensures
        hex_byte(b).len() == 2,
        16 * hex_digit(hex_byte(b)[0]) + hex_digit(hex_byte(b)[1]) == b,
{
}

/// The background is the colour that the terminal said, wherever in its answer it
/// did, whichever way the answer ends.
pub proof fn law_the_background_is_as_the_terminal_says(
    before: Seq<char>,
    after: Seq<char>,
    rgb: (u8, u8, u8),
)
    ensures
        colour_at(
            before + "\u{1b}]11;rgb:"@ + hex_byte(rgb.0) + "/"@ + hex_byte(rgb.1) + "/"@ + hex_byte(
                rgb.2,
            ) + "\u{7}"@ + after,
            before.len() as int,
        ) == Some(rgb),
{
    let (a, b, c) = (hex_byte(rgb.0), hex_byte(rgb.1), hex_byte(rgb.2));
    let t = before + "\u{1b}]11;rgb:"@ + a + "/"@ + b + "/"@ + c + "\u{7}"@ + after;
    reveal_strlit("\u{1b}]11;rgb:");
    reveal_strlit("/");
    reveal_strlit("\u{7}");
    let i = before.len() as int;
    let from = i + 9;
    assert(t.subrange(i, i + 9) =~= "\u{1b}]11;rgb:"@);
    assert(t.subrange(from, from + 2) =~= a);
    assert(t.subrange(from + 2, from + 3) =~= "/"@);
    assert(t.subrange(from + 3, from + 5) =~= b);
    assert(t.subrange(from + 5, from + 6) =~= "/"@);
    assert(t.subrange(from + 6, from + 8) =~= c);
    assert(t.subrange(from + 8, from + 9) =~= "\u{7}"@);
    assert(t[from] == a[0] && t[from + 1] == a[1] && t[from + 2] == '/');
    assert(t[from + 3] == b[0] && t[from + 4] == b[1] && t[from + 5] == '/');
    assert(t[from + 6] == c[0] && t[from + 7] == c[1] && t[from + 8] == '\u{7}');
    lemma_hex_pair(t, from);
    lemma_hex_pair(t, from + 3);
    lemma_hex_pair(t, from + 6);
    law_two_digits_are_the_byte(rgb.0);
    law_two_digits_are_the_byte(rgb.1);
    law_two_digits_are_the_byte(rgb.2);
    assert(a =~= seq![a[0], a[1]] && b =~= seq![b[0], b[1]] && c =~= seq![c[0], c[1]]);
    law_a_channel_is_scaled_to_a_byte(a[0], a[1]);
    law_a_channel_is_scaled_to_a_byte(b[0], b[1]);
    law_a_channel_is_scaled_to_a_byte(c[0], c[1]);
}

proof fn lemma_hex_pair(t: Seq<char>, from: int)
    requires
        0 <= from,
        from + 2 < t.len(),
        is_hex(t[from]) && is_hex(t[from + 1]) && !is_hex(t[from + 2]),
    ensures
        hex_stop(t, from) == from + 2,
{
    assert(hex_stop(t, from + 2) == from + 2);
    assert(hex_stop(t, from + 1) == from + 2);
}

/// Of several answers to one question the last is the one that counts.
pub proof fn law_the_last_answer_counts(t: Seq<char>, n: int)
    requires
        0 <= n < t.len(),
    ensures
        mode_at(t, n) is Some ==> last_mode(t, n + 1) == mode_at(t, n),
        mode_at(t, n) is None ==> last_mode(t, n + 1) == last_mode(t, n),
        colour_at(t, n) is Some ==> last_colour(t, n + 1) == colour_at(t, n),
        colour_at(t, n) is None ==> last_colour(t, n + 1) == last_colour(t, n),
        cell_at(t, n) is Some ==> last_cell(t, n + 1) == cell_at(t, n),
        cell_at(t, n) is None ==> last_cell(t, n + 1) == last_cell(t, n),
{
}

}
