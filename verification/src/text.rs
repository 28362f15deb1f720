//! Plain text: what of a page's words may be put on the row.
//!
//! A page's strings go to a terminal, and a terminal obeys what it is sent.
//! Plain text is text that is only itself: no control characters, nothing
//! that reorders what is around it, nothing that cannot be seen.
use vstd::prelude::*;

use crate::strings::{
    chars_of, decimal, is_control, is_control_char, is_digit, lemma_decimal, lemma_trim_end,
    lemma_trim_start, string_of, trim, trim_start,
};

verus! {

/// Unicode's Bidi_Control set: the characters that reorder a line.
pub open spec fn is_bidi(c: char) -> bool {
    ||| c == '\u{61c}'
    ||| c == '\u{200e}'
    ||| c == '\u{200f}'
    ||| '\u{202a}' <= c <= '\u{202e}'
    ||| '\u{2066}' <= c <= '\u{2069}'
}

/// Whether a character is one of the Bidi_Control set.
pub fn is_bidi_char(c: char) -> (r: bool)
    ensures
        r == is_bidi(c),
{
    c == '\u{61c}' || c == '\u{200e}' || c == '\u{200f}' || ('\u{202a}' <= c && c <= '\u{202e}')
        || ('\u{2066}' <= c && c <= '\u{2069}')
}

/// Format characters that take no room and show nothing.
pub open spec fn is_invisible(c: char) -> bool {
    ||| c == '\u{ad}'
    ||| c == '\u{180e}'
    ||| c == '\u{200b}'
    ||| '\u{2060}' <= c <= '\u{2064}'
    ||| '\u{206a}' <= c <= '\u{206f}'
    ||| c == '\u{feff}'
    ||| '\u{fff9}' <= c <= '\u{fffb}'
    ||| '\u{e0000}' <= c <= '\u{e007f}'
}

/// Whether a character is an invisible format character.
pub fn is_invisible_char(c: char) -> (r: bool)
    ensures
        r == is_invisible(c),
{
    c == '\u{ad}' || c == '\u{180e}' || c == '\u{200b}' || ('\u{2060}' <= c && c <= '\u{2064}')
        || ('\u{206a}' <= c && c <= '\u{206f}') || c == '\u{feff}' || ('\u{fff9}' <= c && c
        <= '\u{fffb}') || ('\u{e0000}' <= c && c <= '\u{e007f}')
}

/// A line break, a paragraph break or a tab.
pub open spec fn is_break(c: char) -> bool {
    c == '\t' || c == '\n' || c == '\r' || c == '\u{85}' || c == '\u{2028}' || c == '\u{2029}'
}

/// Whether a character is a break or a tab.
pub fn is_break_char(c: char) -> (r: bool)
    ensures
        r == is_break(c),
{
    c == '\t' || c == '\n' || c == '\r' || c == '\u{85}' || c == '\u{2028}' || c == '\u{2029}'
}

/// A character that is kept as it is.
pub open spec fn plain(c: char) -> bool {
    !is_control(c) && !is_break(c) && !is_bidi(c) && !is_invisible(c)
}

/// Whether a character is kept as it is.
pub fn is_plain(c: char) -> (r: bool)
    ensures
        r == plain(c),
{
    !is_control_char(c) && !is_break_char(c) && !is_bidi_char(c) && !is_invisible_char(c)
}

/// A text of plain characters alone.
pub open spec fn all_plain(s: Seq<char>) -> bool {
    forall|i: int| 0 <= i < s.len() ==> plain(#[trigger] s[i])
}

/// A text made plain: every break a space, and everything else that is not
/// plain taken out.
pub open spec fn sanitized(s: Seq<char>) -> Seq<char>
    decreases s.len(),
{
    if s.len() == 0 {
        Seq::empty()
    } else {
        let before = sanitized(s.drop_last());
        if is_break(s.last()) {
            before.push(' ')
        } else if plain(s.last()) {
            before.push(s.last())
        } else {
            before
        }
    }
}

/// The text made plain.
pub fn sanitize_chars(s: &[char]) -> (v: Vec<char>)
    ensures
        v@ == sanitized(s@),
{
    let mut v: Vec<char> = Vec::new();
    let mut i: usize = 0;
    while i < s.len()
        invariant
            i <= s@.len(),
            v@ == sanitized(s@.take(i as int)),
        decreases s@.len() - i,
    {
        let c = s[i];
        if is_break_char(c) {
            v.push(' ');
        } else if is_plain(c) {
            v.push(c);
        }
        i += 1;
        proof {
            assert(s@.take(i as int).drop_last() =~= s@.take(i - 1));
        }
    }
    proof {
        assert(s@.take(i as int) =~= s@);
    }
    v
}

/// The text made plain.
pub fn sanitize(s: &str) -> (r: String)
    ensures
        r@ == sanitized(s@),
{
    let s = chars_of(s);
    let v = sanitize_chars(s.as_slice());
    string_of(v.as_slice())
}

/// Whatever goes in, plain text comes out.
pub proof fn law_sanitized_is_plain(s: Seq<char>)
    ensures
        all_plain(sanitized(s)),
    decreases s.len(),
{
    if s.len() > 0 {
        law_sanitized_is_plain(s.drop_last());
        let before = sanitized(s.drop_last());
        assert forall|i: int| 0 <= i < sanitized(s).len() implies plain(
            #[trigger] sanitized(s)[i],
        ) by {
            if i < before.len() {
                assert(plain(before[i]));
            }
        }
    }
}

/// Plain text is left as it is.
pub proof fn law_plain_text_is_left_alone(s: Seq<char>)
    requires
        all_plain(s),
    ensures
        sanitized(s) == s,
    decreases s.len(),
{
    if s.len() > 0 {
        assert forall|i: int| 0 <= i < s.drop_last().len() implies plain(
            #[trigger] s.drop_last()[i],
        ) by {
            assert(plain(s[i]));
        }
        law_plain_text_is_left_alone(s.drop_last());
        assert(plain(s[s.len() - 1]));
        assert(s.drop_last().push(s.last()) =~= s);
    } else {
        assert(sanitized(s) =~= s);
    }
}

/// Making a text plain twice is making it plain once.
pub proof fn law_sanitizing_is_idempotent(s: Seq<char>)
    ensures
        sanitized(sanitized(s)) == sanitized(s),
{
    law_sanitized_is_plain(s);
    law_plain_text_is_left_alone(sanitized(s));
}

/// What is left of plain text when it is trimmed is plain.
pub proof fn lemma_trimmed_is_plain(s: Seq<char>)
    requires
        all_plain(s),
    ensures
        all_plain(trim(s)),
{
    lemma_trim_start(s);
    lemma_trim_end(trim_start(s));
    assert forall|i: int| 0 <= i < trim(s).len() implies plain(#[trigger] trim(s)[i]) by {
        assert(trim(s).contains(trim(s)[i]));
        assert(trim_start(s).contains(trim(s)[i]));
        assert(s.contains(trim(s)[i]));
        let j = choose|j: int| 0 <= j < s.len() && s[j] == trim(s)[i];
        assert(plain(s[j]));
    }
}

/// Two plain texts joined are plain.
pub proof fn lemma_joined_is_plain(a: Seq<char>, b: Seq<char>)
    requires
        all_plain(a),
        all_plain(b),
    ensures
        all_plain(a + b),
{
    assert forall|i: int| 0 <= i < (a + b).len() implies plain(#[trigger] (a + b)[i]) by {
        if i < a.len() {
            assert(plain(a[i]));
        } else {
            assert(plain(b[i - a.len()]));
        }
    }
}

/// A number in digits is plain.
pub proof fn lemma_decimal_is_plain(n: nat)
    ensures
        all_plain(decimal(n)),
{
    lemma_decimal(n);
    assert forall|i: int| 0 <= i < decimal(n).len() implies plain(#[trigger] decimal(n)[i]) by {
        assert(is_digit(decimal(n)[i]));
    }
}

/// What is shown of a text is every character of it that can be, in order, with a
/// space for what would break the line.
pub proof fn law_what_can_be_shown_is(a: Seq<char>, b: Seq<char>, c: char)
    ensures
        sanitized(a + b) == sanitized(a) + sanitized(b),
        plain(c) ==> sanitized(seq![c]) == seq![c],
        c == '\t' || c == '\n' || c == '\r' || c == '\u{85}' || c == '\u{2028}' || c == '\u{2029}'
            ==> sanitized(seq![c]) == seq![' '],
        '\u{20}' <= c <= '\u{7e}' ==> plain(c),
        '\u{a1}' <= c <= '\u{ac}' || '\u{ae}' <= c <= '\u{61b}' ==> plain(c),
        '\u{4e00}' <= c <= '\u{9fff}' || '\u{1f300}' <= c <= '\u{1f64f}' ==> plain(c),
        c < '\u{20}' || '\u{7f}' <= c <= '\u{9f}' ==> !plain(c),
        '\u{202a}' <= c <= '\u{202e}' || '\u{2066}' <= c <= '\u{2069}' ==> sanitized(
            seq![c],
        ) == Seq::<char>::empty(),
        c == '\u{1b}' || c == '\u{7}' || c == '\u{200b}' || c == '\u{feff}' ==> sanitized(seq![c])
            == Seq::<char>::empty(),
    decreases b.len(),
{
    assert(seq![c].drop_last() =~= Seq::<char>::empty());
    assert(sanitized(seq![c].drop_last()) =~= Seq::<char>::empty());
    assert(seq![c].last() == c);
    assert(Seq::<char>::empty().push(c) =~= seq![c]);
    assert(Seq::<char>::empty().push(' ') =~= seq![' ']);
    if b.len() == 0 {
        assert(a + b =~= a);
        assert(sanitized(a) + sanitized(b) =~= sanitized(a));
    } else {
        law_what_can_be_shown_is(a, b.drop_last(), c);
        assert((a + b).drop_last() =~= a + b.drop_last());
        assert((a + b).last() == b.last());
        assert(sanitized(a + b) =~= sanitized(a) + sanitized(b));
    }
}

}
