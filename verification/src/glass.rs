//! What a terminal shows of what is written to it.
//!
//! A model to state things against: a screen of cells, a cursor and an ink, and
//! what the characters written do to them.
use vstd::prelude::*;

use crate::graphics::PLACEHOLDER;
use crate::strings::{
    all_digits, decimal, digits_value, index_of, is_digit, lemma_decimal, lemma_index_of, pieces,
};

verus! {

/// What is in one cell of a screen.
pub struct Tile {
    pub glyph: char,
    /// The colour it was written in, when it is one of the numbered ones.
    pub ink: Option<nat>,
    /// The marks a placeholder carries: of the row, and of the column.
    pub marks: Option<(char, char)>,
}

/// A screen: where the cursor is, the ink, and what is in the cells, each under
/// its row and its column.
#[verifier::ext_equal]
pub struct Glass {
    pub row: int,
    pub col: int,
    pub ink: Option<nat>,
    pub cells: Map<(int, int), Tile>,
}

/// A screen with nothing on it.
pub open spec fn blank() -> Glass {
    Glass { row: 1, col: 1, ink: None, cells: Map::empty() }
}

/// A character that ends a control sequence.
pub open spec fn is_final(c: char) -> bool {
    '@' <= c <= '~'
}

/// Where the first character that ends a control sequence stands, from `at` on.
pub open spec fn final_at(s: Seq<char>, at: int) -> int
    decreases s.len() - at,
{
    if 0 <= at < s.len() && !is_final(s[at]) {
        final_at(s, at + 1)
    } else {
        at
    }
}

impl Glass {
    /// The screen after a control sequence: `H` moves the cursor, and `m` takes
    /// a numbered ink, or the plain one.
    pub open spec fn obeyed(self, params: Seq<char>, last: char) -> Glass {
        let words = pieces(params, ';');
        if last == 'H' && words.len() == 2 && all_digits(words[0]) && all_digits(words[1]) {
            Glass {
                row: digits_value(words[0]) as int,
                col: digits_value(words[1]) as int,
                ..self
            }
        } else if last == 'm' && words.len() == 3 && words[0] == "38"@ && words[1] == "5"@
            && all_digits(words[2]) {
            Glass { ink: Some(digits_value(words[2])), ..self }
        } else if last == 'm' && params == "39"@ {
            Glass { ink: None, ..self }
        } else {
            self
        }
    }

    /// The screen after a character, at the cursor, which moves on.
    pub open spec fn put(self, glyph: char, marks: Option<(char, char)>) -> Glass {
        Glass {
            col: self.col + 1,
            cells: self.cells.insert((self.row, self.col), Tile { glyph, ink: self.ink, marks }),
            ..self
        }
    }

    /// The screen after a text: a placeholder takes the two characters behind it
    /// as its marks.
    pub open spec fn read(self, s: Seq<char>) -> Glass
        decreases s.len(),
    {
        if s.len() == 0 {
            self
        } else if s.len() > 1 && s[0] == '\u{1b}' && s[1] == '[' {
            let end = final_at(s, 2);
            if 2 <= end < s.len() {
                self.obeyed(s.subrange(2, end), s[end]).read(s.skip(end + 1))
            } else {
                self
            }
        } else if s.len() > 2 && s[0] == PLACEHOLDER {
            self.put(s[0], Some((s[1], s[2]))).read(s.skip(3))
        } else {
            self.put(s[0], None).read(s.skip(1))
        }
    }
}

/// Where a control sequence ends, when nothing before does.
proof fn lemma_final_at(s: Seq<char>, at: int, end: int)
    requires
        0 <= at <= end < s.len(),
        forall|i: int| at <= i < end ==> !is_final(#[trigger] s[i]),
        is_final(s[end]),
    ensures
        final_at(s, at) == end,
    decreases end - at,
{
    if at < end {
        lemma_final_at(s, at + 1, end);
    }
}

/// A control sequence is obeyed, and what follows it is read after it.
pub proof fn lemma_obeyed(glass: Glass, params: Seq<char>, last: char, rest: Seq<char>)
    requires
        forall|i: int| 0 <= i < params.len() ==> !is_final(#[trigger] params[i]),
        is_final(last),
    ensures
        glass.read(seq!['\u{1b}', '['] + params + seq![last] + rest) == glass.obeyed(
            params,
            last,
        ).read(rest),
{
    let s = seq!['\u{1b}', '['] + params + seq![last] + rest;
    let end = 2 + params.len() as int;
    assert forall|i: int| 2 <= i < end implies !is_final(#[trigger] s[i]) by {
        assert(s[i] == params[i - 2]);
    }
    assert(s[end] == last);
    lemma_final_at(s, 2, end);
    assert(s.subrange(2, end) =~= params);
    assert(s.skip(end + 1) =~= rest);
}

/// A cell of a picture is put, and what follows it is read after it.
pub proof fn lemma_placed(glass: Glass, a: char, b: char, rest: Seq<char>)
    ensures
        glass.read(seq![PLACEHOLDER, a, b] + rest) == glass.put(PLACEHOLDER, Some((a, b))).read(
            rest,
        ),
{
    let s = seq![PLACEHOLDER, a, b] + rest;
    assert(s.skip(3) =~= rest);
}

/// What stands before the first separator, and behind it.
pub proof fn lemma_first_piece(a: Seq<char>, b: Seq<char>, sep: char)
    requires
        !a.contains(sep),
    ensures
        pieces(a + seq![sep] + b, sep) == seq![a] + pieces(b, sep),
        pieces(a, sep) == seq![a],
{
    let s = a + seq![sep] + b;
    lemma_index_of(s, sep);
    lemma_index_of(a, sep);
    let i = index_of(s, sep);
    if i < a.len() {
        assert(s[i] == a[i]);
        assert(a.contains(sep));
    }
    assert(s[a.len() as int] == sep);
    assert(i == a.len());
    assert(s.take(i) =~= a);
    assert(s.skip(i + 1) =~= b);
    if index_of(a, sep) < a.len() {
        assert(a.contains(a[index_of(a, sep)]));
    }
}

/// Digits hold no separator, and end nothing.
pub proof fn lemma_digits_are_no_end(d: Seq<char>)
    requires
        all_digits(d),
    ensures
        !d.contains(';'),
        forall|i: int| 0 <= i < d.len() ==> !is_final(#[trigger] d[i]),
{
    assert forall|i: int| 0 <= i < d.len() implies !is_final(#[trigger] d[i]) && d[i] != ';' by {
        assert(is_digit(d[i]));
    }
}

/// The cursor is moved to a row's column.
pub proof fn lemma_moved(glass: Glass, row: nat, col: nat, rest: Seq<char>)
    ensures
        glass.read("\x1b["@ + decimal(row) + ";"@ + decimal(col) + "H"@ + rest) == (Glass {
            row: row as int,
            col: col as int,
            ..glass
        }).read(rest),
{
    let params = decimal(row) + seq![';'] + decimal(col);
    reveal_strlit("\x1b[");
    reveal_strlit(";");
    reveal_strlit("H");
    lemma_decimal(row);
    lemma_decimal(col);
    lemma_digits_are_no_end(decimal(row));
    lemma_digits_are_no_end(decimal(col));
    lemma_first_piece(decimal(row), decimal(col), ';');
    lemma_first_piece(decimal(col), Seq::empty(), ';');
    assert forall|i: int| 0 <= i < params.len() implies !is_final(#[trigger] params[i]) by {
        if i < decimal(row).len() {
            assert(params[i] == decimal(row)[i]);
        } else if i > decimal(row).len() {
            assert(params[i] == decimal(col)[i - decimal(row).len() - 1]);
        }
    }
    lemma_obeyed(glass, params, 'H', rest);
    assert("\x1b["@ + decimal(row) + ";"@ + decimal(col) + "H"@ + rest =~= seq!['\u{1b}', '[']
        + params + seq!['H'] + rest);
    assert(pieces(params, ';') =~= seq![decimal(row), decimal(col)]);
}

/// A numbered ink is taken.
pub proof fn lemma_inked(glass: Glass, ink: nat, rest: Seq<char>)
    ensures
        glass.read("\x1b[38;5;"@ + decimal(ink) + "m"@ + rest) == (Glass {
            ink: Some(ink),
            ..glass
        }).read(rest),
        glass.read("\x1b[39m"@ + rest) == (Glass { ink: None, ..glass }).read(rest),
{
    let d = decimal(ink);
    let params = "38"@ + seq![';'] + ("5"@ + seq![';'] + d);
    reveal_strlit("\x1b[38;5;");
    reveal_strlit("\x1b[39m");
    reveal_strlit("m");
    reveal_strlit("38");
    reveal_strlit("5");
    reveal_strlit("39");
    lemma_decimal(ink);
    lemma_digits_are_no_end(d);
    lemma_first_piece("38"@, "5"@ + seq![';'] + d, ';');
    lemma_first_piece("5"@, d, ';');
    lemma_first_piece(d, Seq::empty(), ';');
    lemma_first_piece("39"@, Seq::empty(), ';');
    assert forall|i: int| 0 <= i < params.len() implies !is_final(#[trigger] params[i]) by {
        if i >= 5 {
            assert(params[i] == d[i - 5]);
        }
    }
    lemma_obeyed(glass, params, 'm', rest);
    lemma_obeyed(glass, "39"@, 'm', rest);
    assert("\x1b[38;5;"@ + d + "m"@ + rest =~= seq!['\u{1b}', '['] + params + seq!['m'] + rest);
    assert("\x1b[39m"@ + rest =~= seq!['\u{1b}', '['] + "39"@ + seq!['m'] + rest);
    assert(pieces(params, ';') =~= seq!["38"@, "5"@, d]);
}

}
