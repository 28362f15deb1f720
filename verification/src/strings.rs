//! Text as sequences of characters: the conversions, searches and numbers
//! that the rest of the library is written with.
//!
//! A string is its characters. The functions here work on slices of
//! characters, and [`chars_of`] and [`string_of`] go between those and the
//! strings that callers hold.
use vstd::prelude::*;
use vstd::slice::slice_subrange;
use vstd::utf8::{encode_scalar, encode_utf8, is_char_boundary};

verus! {

/// `String::push`: the character goes to the end and nothing else changes.
pub assume_specification[ std::string::String::push ](s: &mut std::string::String, c: char)
    ensures
        final(s)@ == old(s)@.push(c),
;

/// The characters of a string.
pub fn chars_of(s: &str) -> (v: Vec<char>)
    ensures
        v@ == s@,
{
    let mut v: Vec<char> = Vec::new();
    for c in it: s.chars()
        invariant
            v@ == it.seq().take(it.index()),
            it.seq() == s@,
    {
        v.push(c);
    }
    v
}

/// The string of some characters.
pub fn string_of(v: &[char]) -> (s: String)
    ensures
        s@ == v@,
{
    let mut s = String::new();
    let mut i: usize = 0;
    while i < v.len()
        invariant
            i <= v@.len(),
            s@ == v@.take(i as int),
        decreases v@.len() - i,
    {
        s.push(v[i]);
        i += 1;
    }
    s
}

/// Whether two slices hold the same characters.
pub fn same_chars(a: &[char], b: &[char]) -> (r: bool)
    ensures
        r == (a@ == b@),
{
    if a.len() != b.len() {
        return false;
    }
    let mut i: usize = 0;
    while i < a.len()
        invariant
            i <= a@.len(),
            a@.len() == b@.len(),
            forall|j: int| 0 <= j < i ==> a@[j] == b@[j],
        decreases a@.len() - i,
    {
        if a[i] != b[i] {
            return false;
        }
        i += 1;
    }
    proof {
        assert(a@ =~= b@);
    }
    true
}

/// Whether two strings are the same text.
pub fn same(a: &str, b: &str) -> (r: bool)
    ensures
        r == (a@ == b@),
{
    let a = chars_of(a);
    let b = chars_of(b);
    same_chars(a.as_slice(), b.as_slice())
}

/// Whether some characters are the text of `word`.
pub fn is_word(s: &[char], word: &str) -> (r: bool)
    ensures
        r == (s@ == word@),
{
    let word = chars_of(word);
    same_chars(s, word.as_slice())
}

// ---- searching ----

/// `p` stands in `s` at `i`.
pub open spec fn occurs_at(s: Seq<char>, p: Seq<char>, i: int) -> bool {
    &&& 0 <= i
    &&& i + p.len() <= s.len()
    &&& s.subrange(i, i + p.len()) == p
}

/// `s` starts with `p`.
pub open spec fn starts(s: Seq<char>, p: Seq<char>) -> bool {
    occurs_at(s, p, 0)
}

/// `s` ends with `p`.
pub open spec fn ends(s: Seq<char>, p: Seq<char>) -> bool {
    occurs_at(s, p, s.len() - p.len())
}

/// `s` has `p` somewhere in it.
pub open spec fn holds(s: Seq<char>, p: Seq<char>) -> bool {
    exists|i: int| #[trigger] occurs_at(s, p, i)
}

/// Whether `p` stands in `s` at `i`.
pub fn occurs(s: &[char], p: &[char], i: usize) -> (r: bool)
    ensures
        r == occurs_at(s@, p@, i as int),
{
    if s.len() < p.len() || s.len() - p.len() < i {
        return false;
    }
    let there = slice_subrange(s, i, i + p.len());
    same_chars(there, p)
}

/// Whether a word stands in `s` at `i`.
pub fn occurs_word(s: &[char], word: &str, i: usize) -> (r: bool)
    ensures
        r == occurs_at(s@, word@, i as int),
{
    let word = chars_of(word);
    occurs(s, word.as_slice(), i)
}

/// Whether `s` starts with `p`.
pub fn starts_with(s: &[char], p: &[char]) -> (r: bool)
    ensures
        r == starts(s@, p@),
{
    occurs(s, p, 0)
}

/// Whether `s` starts with the text of `word`.
pub fn starts_with_word(s: &[char], word: &str) -> (r: bool)
    ensures
        r == starts(s@, word@),
{
    let word = chars_of(word);
    starts_with(s, word.as_slice())
}

/// Whether `s` ends with the text of `word`.
pub fn ends_with_word(s: &[char], word: &str) -> (r: bool)
    ensures
        r == ends(s@, word@),
{
    let word = chars_of(word);
    if s.len() < word.len() {
        return false;
    }
    occurs(s, word.as_slice(), s.len() - word.len())
}

/// Where `p` first stands in `s`, or `None` when it does not.
pub fn find(s: &[char], p: &[char]) -> (r: Option<usize>)
    ensures
        r is None <==> !holds(s@, p@),
        r matches Some(i) ==> occurs_at(s@, p@, i as int) && forall|j: int|
            0 <= j < i ==> !occurs_at(s@, p@, j),
{
    if s.len() < p.len() {
        return None;
    }
    let last: usize = s.len() - p.len();
    let mut i: usize = 0;
    while i <= last
        invariant
            last == s@.len() - p@.len(),
            i <= last + 1,
            forall|j: int| 0 <= j < i ==> !occurs_at(s@, p@, j),
        decreases last + 1 - i,
    {
        if occurs(s, p, i) {
            return Some(i);
        }
        if i == last {
            return None;
        }
        i += 1;
    }
    None
}

/// Whether `s` has `p` somewhere in it.
pub fn contains(s: &[char], p: &[char]) -> (r: bool)
    ensures
        r == holds(s@, p@),
{
    find(s, p).is_some()
}

/// Whether `s` has the text of `word` somewhere in it.
pub fn contains_word(s: &[char], word: &str) -> (r: bool)
    ensures
        r == holds(s@, word@),
{
    let word = chars_of(word);
    contains(s, word.as_slice())
}

/// Where `c` first stands in `s`: the length of `s` when it does not.
pub open spec fn index_of(s: Seq<char>, c: char) -> int
    decreases s.len(),
{
    if s.len() == 0 || s[0] == c {
        0
    } else {
        1 + index_of(s.drop_first(), c)
    }
}

/// What [`index_of`] is: the first place that holds `c`.
pub proof fn lemma_index_of(s: Seq<char>, c: char)
    ensures
        0 <= index_of(s, c) <= s.len(),
        index_of(s, c) < s.len() ==> s[index_of(s, c)] == c,
        forall|j: int| 0 <= j < index_of(s, c) ==> s[j] != c,
        index_of(s, c) == s.len() <==> !s.contains(c),
    decreases s.len(),
{
    if s.len() > 0 && s[0] != c {
        let rest = s.drop_first();
        lemma_index_of(rest, c);
        let k = index_of(rest, c);
        assert forall|j: int| 0 <= j < k + 1 implies s[j] != c by {
            if j > 0 {
                assert(s[j] == rest[j - 1]);
            }
        }
        if k < rest.len() {
            assert(s[k + 1] == rest[k]);
        }
        if s.contains(c) {
            let i = choose|i: int| 0 <= i < s.len() && s[i] == c;
            assert(rest[i - 1] == c);
        }
    }
}

/// The place that holds `c` with none before it is [`index_of`].
pub proof fn lemma_index_of_is(s: Seq<char>, c: char, i: int)
    requires
        0 <= i <= s.len(),
        i < s.len() ==> s[i] == c,
        forall|j: int| 0 <= j < i ==> s[j] != c,
    ensures
        index_of(s, c) == i,
{
    lemma_index_of(s, c);
    let k = index_of(s, c);
    if k < i {
        assert(s[k] != c);
    }
    if i < k {
        assert(s[i] != c);
    }
}

/// Where `c` first stands in `s`, or the length of `s`.
pub fn position(s: &[char], c: char) -> (i: usize)
    ensures
        i == index_of(s@, c),
        i <= s@.len(),
{
    let mut i: usize = 0;
    while i < s.len()
        invariant
            i <= s@.len(),
            forall|j: int| 0 <= j < i ==> s@[j] != c,
        decreases s@.len() - i,
    {
        if s[i] == c {
            proof {
                lemma_index_of_is(s@, c, i as int);
            }
            return i;
        }
        i += 1;
    }
    proof {
        lemma_index_of_is(s@, c, i as int);
    }
    i
}

/// Where `c` last stands in `s`: -1 when it does not.
pub open spec fn last_index_of(s: Seq<char>, c: char) -> int
    decreases s.len(),
{
    if s.len() == 0 {
        -1
    } else if s.last() == c {
        s.len() - 1
    } else {
        last_index_of(s.drop_last(), c)
    }
}

/// The last place of `c` in `s`, or `None`.
pub fn last_position(s: &[char], c: char) -> (r: Option<usize>)
    ensures
        r is None <==> last_index_of(s@, c) < 0,
        r matches Some(i) ==> i == last_index_of(s@, c) && i < s@.len() && s@[i as int] == c,
{
    let mut n: usize = s.len();
    proof {
        assert(s@.take(n as int) =~= s@);
    }
    while n > 0
        invariant
            n <= s@.len(),
            last_index_of(s@, c) == last_index_of(s@.take(n as int), c),
        decreases n,
    {
        proof {
            assert(s@.take(n as int).last() == s@[n - 1]);
            assert(s@.take(n as int).drop_last() =~= s@.take(n - 1));
        }
        if s[n - 1] == c {
            return Some(n - 1);
        }
        n -= 1;
    }
    None
}

// ---- characters ----

/// The ASCII lower case of a character; any other character is itself.
pub open spec fn lower(c: char) -> char {
    if 'A' <= c && c <= 'Z' {
        ((c as u32 + 32) as u8) as char
    } else {
        c
    }
}

/// The ASCII lower case of a character.
pub fn lower_char(c: char) -> (r: char)
    ensures
        r == lower(c),
{
    if 'A' <= c && c <= 'Z' {
        ((c as u32 + 32) as u8) as char
    } else {
        c
    }
}

/// The ASCII lower case of a text, character by character.
pub open spec fn lower_all(s: Seq<char>) -> Seq<char> {
    s.map_values(|c: char| lower(c))
}

/// The ASCII lower case of a text.
pub fn lower_chars(s: &[char]) -> (v: Vec<char>)
    ensures
        v@ == lower_all(s@),
{
    let mut v: Vec<char> = Vec::new();
    let mut i: usize = 0;
    while i < s.len()
        invariant
            i <= s@.len(),
            v@ == lower_all(s@.take(i as int)),
        decreases s@.len() - i,
    {
        v.push(lower_char(s[i]));
        i += 1;
        proof {
            assert(v@ =~= lower_all(s@.take(i as int)));
        }
    }
    proof {
        assert(s@.take(i as int) =~= s@);
    }
    v
}

/// The characters that Unicode calls white space.
pub open spec fn is_space(c: char) -> bool {
    ||| '\u{9}' <= c <= '\u{d}'
    ||| c == ' '
    ||| c == '\u{85}'
    ||| c == '\u{a0}'
    ||| c == '\u{1680}'
    ||| '\u{2000}' <= c <= '\u{200a}'
    ||| c == '\u{2028}'
    ||| c == '\u{2029}'
    ||| c == '\u{202f}'
    ||| c == '\u{205f}'
    ||| c == '\u{3000}'
}

/// Whether a character is white space.
pub fn is_space_char(c: char) -> (r: bool)
    ensures
        r == is_space(c),
{
    ('\u{9}' <= c && c <= '\u{d}') || c == ' ' || c == '\u{85}' || c == '\u{a0}' || c == '\u{1680}'
        || ('\u{2000}' <= c && c <= '\u{200a}') || c == '\u{2028}' || c == '\u{2029}'
        || c == '\u{202f}' || c == '\u{205f}' || c == '\u{3000}'
}

/// The control characters: the C0 set, DEL and the C1 set.
pub open spec fn is_control(c: char) -> bool {
    c <= '\u{1f}' || '\u{7f}' <= c <= '\u{9f}'
}

/// Whether a character is a control character.
pub fn is_control_char(c: char) -> (r: bool)
    ensures
        r == is_control(c),
{
    c <= '\u{1f}' || ('\u{7f}' <= c && c <= '\u{9f}')
}

/// An ASCII digit.
pub open spec fn is_digit(c: char) -> bool {
    '0' <= c <= '9'
}

/// Whether a character is an ASCII digit.
pub fn is_digit_char(c: char) -> (r: bool)
    ensures
        r == is_digit(c),
{
    '0' <= c && c <= '9'
}

/// An ASCII letter.
pub open spec fn is_letter(c: char) -> bool {
    'a' <= c <= 'z' || 'A' <= c <= 'Z'
}

/// Whether a character is an ASCII letter.
pub fn is_letter_char(c: char) -> (r: bool)
    ensures
        r == is_letter(c),
{
    ('a' <= c && c <= 'z') || ('A' <= c && c <= 'Z')
}

/// An ASCII hexadecimal digit, in either case.
pub open spec fn is_hex(c: char) -> bool {
    is_digit(c) || 'a' <= c <= 'f' || 'A' <= c <= 'F'
}

/// Whether a character is a hexadecimal digit.
pub fn is_hex_char(c: char) -> (r: bool)
    ensures
        r == is_hex(c),
{
    is_digit_char(c) || ('a' <= c && c <= 'f') || ('A' <= c && c <= 'F')
}

// ---- trimming ----

/// `s` without the white space it starts with.
pub open spec fn trim_start(s: Seq<char>) -> Seq<char>
    decreases s.len(),
{
    if s.len() > 0 && is_space(s[0]) {
        trim_start(s.drop_first())
    } else {
        s
    }
}

/// `s` without the white space it ends with.
pub open spec fn trim_end(s: Seq<char>) -> Seq<char>
    decreases s.len(),
{
    if s.len() > 0 && is_space(s.last()) {
        trim_end(s.drop_last())
    } else {
        s
    }
}

/// `s` without the white space around it.
pub open spec fn trim(s: Seq<char>) -> Seq<char> {
    trim_end(trim_start(s))
}

/// The slice without the white space it starts with.
pub fn trim_start_chars(s: &[char]) -> (r: &[char])
    ensures
        r@ == trim_start(s@),
{
    let mut i: usize = 0;
    proof {
        assert(s@.skip(0) =~= s@);
    }
    while i < s.len() && is_space_char(s[i])
        invariant
            i <= s@.len(),
            trim_start(s@) == trim_start(s@.skip(i as int)),
        decreases s@.len() - i,
    {
        proof {
            assert(s@.skip(i as int)[0] == s@[i as int]);
            assert(s@.skip(i as int).drop_first() =~= s@.skip(i + 1));
        }
        i += 1;
    }
    proof {
        if i < s@.len() {
            assert(s@.skip(i as int)[0] == s@[i as int]);
        }
        assert(s@.skip(i as int) =~= s@.subrange(i as int, s@.len() as int));
    }
    slice_subrange(s, i, s.len())
}

/// The slice without the white space it ends with.
pub fn trim_end_chars(s: &[char]) -> (r: &[char])
    ensures
        r@ == trim_end(s@),
{
    let mut n: usize = s.len();
    proof {
        assert(s@.take(n as int) =~= s@);
    }
    while n > 0 && is_space_char(s[n - 1])
        invariant
            n <= s@.len(),
            trim_end(s@) == trim_end(s@.take(n as int)),
        decreases n,
    {
        proof {
            assert(s@.take(n as int).last() == s@[n - 1]);
            assert(s@.take(n as int).drop_last() =~= s@.take(n - 1));
        }
        n -= 1;
    }
    proof {
        if n > 0 {
            assert(s@.take(n as int).last() == s@[n - 1]);
        }
        assert(s@.take(n as int) =~= s@.subrange(0, n as int));
    }
    slice_subrange(s, 0, n)
}

/// The slice without the white space around it.
pub fn trim_chars(s: &[char]) -> (r: &[char])
    ensures
        r@ == trim(s@),
{
    trim_end_chars(trim_start_chars(s))
}

/// What trimming leaves starts with no white space.
pub proof fn lemma_trim_start(s: Seq<char>)
    ensures
        trim_start(s).len() <= s.len(),
        trim_start(s).len() > 0 ==> !is_space(trim_start(s)[0]),
        forall|c: char| trim_start(s).contains(c) ==> s.contains(c),
    decreases s.len(),
{
    if s.len() > 0 && is_space(s[0]) {
        let rest = s.drop_first();
        lemma_trim_start(rest);
        assert forall|c: char| trim_start(s).contains(c) implies s.contains(c) by {
            assert(rest.contains(c));
            let i = choose|i: int| 0 <= i < rest.len() && rest[i] == c;
            assert(s[i + 1] == c);
        }
    }
}

/// What trimming leaves ends with no white space.
pub proof fn lemma_trim_end(s: Seq<char>)
    ensures
        trim_end(s).len() <= s.len(),
        trim_end(s) == s.take(trim_end(s).len() as int),
        trim_end(s).len() > 0 ==> !is_space(trim_end(s).last()),
        forall|c: char| trim_end(s).contains(c) ==> s.contains(c),
    decreases s.len(),
{
    if s.len() > 0 && is_space(s.last()) {
        let rest = s.drop_last();
        lemma_trim_end(rest);
        assert(trim_end(s) =~= s.take(trim_end(s).len() as int));
        assert forall|c: char| trim_end(s).contains(c) implies s.contains(c) by {
            assert(rest.contains(c));
            let i = choose|i: int| 0 <= i < rest.len() && rest[i] == c;
            assert(s[i] == c);
        }
    } else {
        assert(s.take(s.len() as int) =~= s);
    }
}

/// What is taken off the ends of a text.
#[derive(Debug, Clone, Copy, PartialEq, Eq, Structural)]
pub enum Edge {
    /// Spaces and carriage returns.
    Padding,
    /// White space and dots.
    Dots,
}

/// A character that is taken off the ends.
pub open spec fn at_edge(edge: Edge, c: char) -> bool {
    match edge {
        Edge::Padding => c == ' ' || c == '\r',
        Edge::Dots => is_space(c) || c == '.',
    }
}

/// `s` without such characters at its start.
pub open spec fn strip_start(s: Seq<char>, edge: Edge) -> Seq<char>
    decreases s.len(),
{
    if s.len() > 0 && at_edge(edge, s[0]) {
        strip_start(s.drop_first(), edge)
    } else {
        s
    }
}

/// `s` without such characters at its end.
pub open spec fn strip_end(s: Seq<char>, edge: Edge) -> Seq<char>
    decreases s.len(),
{
    if s.len() > 0 && at_edge(edge, s.last()) {
        strip_end(s.drop_last(), edge)
    } else {
        s
    }
}

/// `s` without such characters at either end.
pub open spec fn strip(s: Seq<char>, edge: Edge) -> Seq<char> {
    strip_end(strip_start(s, edge), edge)
}

/// Whether a character is taken off the ends.
fn is_at_edge(edge: Edge, c: char) -> (r: bool)
    ensures
        r == at_edge(edge, c),
{
    match edge {
        Edge::Padding => c == ' ' || c == '\r',
        Edge::Dots => is_space_char(c) || c == '.',
    }
}

/// The slice without such characters at either end.
pub fn strip_chars(s: &[char], edge: Edge) -> (r: &[char])
    ensures
        r@ == strip(s@, edge),
{
    let mut i: usize = 0;
    proof {
        assert(s@.skip(0) =~= s@);
    }
    while i < s.len() && is_at_edge(edge, s[i])
        invariant
            i <= s@.len(),
            strip_start(s@, edge) == strip_start(s@.skip(i as int), edge),
        decreases s@.len() - i,
    {
        proof {
            assert(s@.skip(i as int)[0] == s@[i as int]);
            assert(s@.skip(i as int).drop_first() =~= s@.skip(i + 1));
        }
        i += 1;
    }
    let ghost rest = s@.skip(i as int);
    proof {
        if i < s@.len() {
            assert(rest[0] == s@[i as int]);
        }
        assert(rest.take(rest.len() as int) =~= rest);
    }
    let mut n: usize = s.len();
    while n > i && is_at_edge(edge, s[n - 1])
        invariant
            i <= n <= s@.len(),
            rest == s@.skip(i as int),
            strip_end(rest, edge) == strip_end(rest.take(n - i), edge),
        decreases n,
    {
        proof {
            assert(rest.take(n - i).last() == s@[n - 1]);
            assert(rest.take(n - i).drop_last() =~= rest.take(n - 1 - i));
        }
        n -= 1;
    }
    proof {
        if n > i {
            assert(rest.take(n - i).last() == s@[n - 1]);
        }
        assert(rest.take(n - i) =~= s@.subrange(i as int, n as int));
    }
    slice_subrange(s, i, n)
}

/// What stripping leaves is of the text, and has no such characters at its
/// ends.
pub proof fn lemma_strip(s: Seq<char>, edge: Edge)
    ensures
        strip(s, edge).len() <= s.len(),
        strip(s, edge).len() > 0 ==> !at_edge(edge, strip(s, edge)[0]) && !at_edge(
            edge,
            strip(s, edge).last(),
        ),
        forall|c: char| strip(s, edge).contains(c) ==> s.contains(c),
{
    lemma_strip_start(s, edge);
    lemma_strip_end(strip_start(s, edge), edge);
}

proof fn lemma_strip_start(s: Seq<char>, edge: Edge)
    ensures
        strip_start(s, edge).len() <= s.len(),
        strip_start(s, edge).len() > 0 ==> !at_edge(edge, strip_start(s, edge)[0]),
        forall|c: char| strip_start(s, edge).contains(c) ==> s.contains(c),
    decreases s.len(),
{
    if s.len() > 0 && at_edge(edge, s[0]) {
        let rest = s.drop_first();
        lemma_strip_start(rest, edge);
        assert forall|c: char| strip_start(s, edge).contains(c) implies s.contains(c) by {
            assert(rest.contains(c));
            let i = choose|i: int| 0 <= i < rest.len() && rest[i] == c;
            assert(s[i + 1] == c);
        }
    }
}

proof fn lemma_strip_end(s: Seq<char>, edge: Edge)
    ensures
        strip_end(s, edge).len() <= s.len(),
        strip_end(s, edge) == s.take(strip_end(s, edge).len() as int),
        strip_end(s, edge).len() > 0 ==> !at_edge(edge, strip_end(s, edge).last()),
        forall|c: char| strip_end(s, edge).contains(c) ==> s.contains(c),
    decreases s.len(),
{
    if s.len() > 0 && at_edge(edge, s.last()) {
        let rest = s.drop_last();
        lemma_strip_end(rest, edge);
        assert(strip_end(s, edge) =~= s.take(strip_end(s, edge).len() as int));
        assert forall|c: char| strip_end(s, edge).contains(c) implies s.contains(c) by {
            assert(rest.contains(c));
            let i = choose|i: int| 0 <= i < rest.len() && rest[i] == c;
            assert(s[i] == c);
        }
    } else {
        assert(s.take(s.len() as int) =~= s);
    }
}

/// A text with no such characters at its ends is left as it is.
pub proof fn lemma_strip_nothing(s: Seq<char>, edge: Edge)
    requires
        s.len() > 0 ==> !at_edge(edge, s[0]) && !at_edge(edge, s.last()),
    ensures
        strip(s, edge) == s,
{
}

// ---- lengths in bytes ----

/// How many bytes a character takes in UTF-8.
pub open spec fn char_bytes(c: char) -> nat {
    if c <= '\u{7f}' {
        1
    } else if c <= '\u{7ff}' {
        2
    } else if c <= '\u{ffff}' {
        3
    } else {
        4
    }
}

/// How many bytes a text takes in UTF-8.
pub open spec fn byte_len(s: Seq<char>) -> nat
    decreases s.len(),
{
    if s.len() == 0 {
        0
    } else {
        byte_len(s.drop_last()) + char_bytes(s.last())
    }
}

/// How many bytes a character takes in UTF-8.
pub fn char_byte_len(c: char) -> (n: usize)
    ensures
        n == char_bytes(c),
        1 <= n <= 4,
{
    if c <= '\u{7f}' {
        1
    } else if c <= '\u{7ff}' {
        2
    } else if c <= '\u{ffff}' {
        3
    } else {
        4
    }
}

/// The bytes of two texts joined are those of the one and of the other.
pub proof fn lemma_byte_len_concat(a: Seq<char>, b: Seq<char>)
    ensures
        byte_len(a + b) == byte_len(a) + byte_len(b),
    decreases b.len(),
{
    if b.len() == 0 {
        assert(a + b =~= a);
    } else {
        lemma_byte_len_concat(a, b.drop_last());
        assert((a + b).drop_last() =~= a + b.drop_last());
        assert((a + b).last() == b.last());
    }
}

/// A text takes at least a byte and at most four for each character.
pub proof fn lemma_byte_len_bounds(s: Seq<char>)
    ensures
        s.len() <= byte_len(s) <= 4 * s.len(),
    decreases s.len(),
{
    if s.len() > 0 {
        lemma_byte_len_bounds(s.drop_last());
    }
}

/// [`char_bytes`] is the length of the UTF-8 encoding.
proof fn lemma_char_bytes_encodes(c: char)
    ensures
        encode_scalar(c as u32).len() == char_bytes(c),
{
}

/// [`byte_len`] is the length of the UTF-8 encoding.
pub proof fn lemma_byte_len_encodes(s: Seq<char>)
    ensures
        byte_len(s) == encode_utf8(s).len(),
    decreases s.len(),
{
    if s.len() > 0 {
        let rest = s.drop_first();
        lemma_byte_len_encodes(rest);
        let one = seq![s[0]];
        assert(one.drop_last() =~= Seq::<char>::empty());
        assert(byte_len(one.drop_last()) == 0);
        assert(byte_len(one) == char_bytes(s[0]));
        assert(s =~= one + rest);
        lemma_byte_len_concat(one, rest);
        lemma_char_bytes_encodes(s[0]);
    }
}

/// The length of a string in bytes.
pub fn str_byte_len(s: &str) -> (n: usize)
    ensures
        n == byte_len(s@),
{
    proof {
        lemma_byte_len_encodes(s@);
    }
    s.as_bytes().len()
}

/// Whether a text is empty.
pub fn is_blank(s: &str) -> (r: bool)
    ensures
        r == (s@.len() == 0),
{
    s.is_empty()
}

/// Where the bytes of a front end is a character boundary.
proof fn lemma_front_is_a_boundary(a: Seq<char>, b: Seq<char>)
    ensures
        is_char_boundary(encode_utf8(a + b), encode_utf8(a).len() as int),
    decreases a.len(),
{
    broadcast use vstd::utf8::encode_utf8_valid_utf8;

    if a.len() > 0 {
        let all = a + b;
        let rest = a.drop_first();
        assert(all.drop_first() =~= rest + b);
        assert(all[0] == a[0]);
        vstd::utf8::encode_utf8_first_scalar(all);
        lemma_char_bytes_encodes(a[0]);
        lemma_front_is_a_boundary(rest, b);
        assert(vstd::utf8::pop_first_scalar(encode_utf8(all)) =~= encode_utf8(rest + b));
        assert(encode_utf8(a).len() == encode_utf8(rest).len() + char_bytes(a[0]));
        lemma_byte_len_encodes(rest + b);
        lemma_byte_len_concat(rest, b);
        lemma_byte_len_encodes(rest);
        lemma_byte_len_encodes(all);
    }
}

/// A text in two, the first with `n` characters.
pub fn split_str(s: &str, n: usize) -> (r: (&str, &str))
    requires
        n <= s@.len(),
    ensures
        r.0@ == s@.take(n as int),
        r.1@ == s@.skip(n as int),
{
    let chars = chars_of(s);
    let total = str_byte_len(s);
    let mut mid: usize = 0;
    let mut i: usize = 0;
    proof {
        assert(s@.take(0) =~= Seq::<char>::empty());
    }
    while i < n
        invariant
            i <= n <= chars@.len(),
            chars@ == s@,
            total == byte_len(s@),
            mid == byte_len(s@.take(i as int)),
        decreases n - i,
    {
        proof {
            assert(s@.take(i + 1).drop_last() =~= s@.take(i as int));
            assert(s@.take(i + 1) + s@.skip(i + 1) =~= s@);
            lemma_byte_len_concat(s@.take(i + 1), s@.skip(i + 1));
        }
        mid += char_byte_len(chars[i]);
        i += 1;
    }
    let ghost a = s@.take(n as int);
    let ghost b = s@.skip(n as int);
    proof {
        assert(a + b =~= s@);
        lemma_byte_len_encodes(a);
        lemma_front_is_a_boundary(a, b);
        crate::bytes::lemma_utf8_concat(a, b);
    }
    let r = s.split_at(mid);
    proof {
        assert(encode_utf8(r.0@) =~= encode_utf8(a));
        assert(encode_utf8(r.1@) =~= encode_utf8(b));
        vstd::utf8::encode_utf8_decode_utf8(r.0@);
        vstd::utf8::encode_utf8_decode_utf8(a);
        vstd::utf8::encode_utf8_decode_utf8(r.1@);
        vstd::utf8::encode_utf8_decode_utf8(b);
    }
    r
}

// ---- pieces ----

/// What stands between the separators of a text: one piece more than there are
/// separators.
pub open spec fn pieces(s: Seq<char>, sep: char) -> Seq<Seq<char>>
    decreases s.len(),
{
    let i = index_of(s, sep);
    if 0 <= i < s.len() {
        seq![s.take(i)] + pieces(s.skip(i + 1), sep)
    } else {
        seq![s]
    }
}

/// The texts of some lists of characters.
pub open spec fn char_lists(v: Seq<Vec<char>>) -> Seq<Seq<char>> {
    v.map_values(|p: Vec<char>| p@)
}

/// What stands between the separators of a text.
pub fn split(s: &[char], sep: char) -> (v: Vec<Vec<char>>)
    ensures
        char_lists(v@) == pieces(s@, sep),
        v@.len() >= 1,
{
    let mut out: Vec<Vec<char>> = Vec::new();
    let mut from: usize = 0;
    proof {
        assert(s@.skip(0) =~= s@);
        assert(char_lists(out@) + pieces(s@.skip(0), sep) =~= pieces(s@, sep));
    }
    loop
        invariant
            from <= s@.len(),
            char_lists(out@) + pieces(s@.skip(from as int), sep) == pieces(s@, sep),
        decreases s@.len() - from,
    {
        let rest = slice_subrange(s, from, s.len());
        proof {
            assert(rest@ =~= s@.skip(from as int));
            lemma_index_of(rest@, sep);
        }
        let i = position(rest, sep);
        let piece = copied(slice_subrange(rest, 0, i));
        let ghost before = char_lists(out@);
        out.push(piece);
        proof {
            assert(piece@ =~= rest@.take(i as int));
            assert(char_lists(out@) =~= before.push(piece@));
        }
        if i == rest.len() {
            proof {
                assert(piece@ =~= rest@);
                assert(char_lists(out@) =~= before + seq![rest@]);
            }
            return out;
        }
        proof {
            assert(rest@.skip(i + 1) =~= s@.skip(from + i + 1));
            assert(before + (seq![piece@] + pieces(s@.skip(from + i + 1), sep)) =~= char_lists(
                out@,
            ) + pieces(s@.skip(from + i + 1), sep));
        }
        from = from + i + 1;
    }
}

/// The same characters again.
pub fn copied(s: &[char]) -> (v: Vec<char>)
    ensures
        v@ == s@,
{
    let mut v: Vec<char> = Vec::new();
    let mut i: usize = 0;
    while i < s.len()
        invariant
            i <= s@.len(),
            v@ == s@.take(i as int),
        decreases s@.len() - i,
    {
        v.push(s[i]);
        i += 1;
        proof {
            assert(v@ =~= s@.take(i as int));
        }
    }
    proof {
        assert(s@.take(i as int) =~= s@);
    }
    v
}

// ---- Unicode ----

/// What `str::to_lowercase` makes of a text.
pub uninterp spec fn lowercase(s: Seq<char>) -> Seq<char>;

/// Every character is one of ASCII's.
pub open spec fn all_ascii(s: Seq<char>) -> bool {
    forall|i: int| 0 <= i < s.len() ==> #[trigger] s[i] <= '\u{7f}'
}

/// The lower case of a text: of ASCII, that of each letter.
pub open spec fn lowered(s: Seq<char>) -> Seq<char> {
    if all_ascii(s) {
        lower_all(s)
    } else {
        lowercase(s)
    }
}

/// `str::to_lowercase`: the lower case of a text, by Unicode's mapping, which
/// may be longer or shorter than the text. Of ASCII that is each letter's lower
/// case; of the rest only that it is a function of the text is stated.
#[verifier::external_body]
pub(crate) fn lowercase_of(s: &str) -> (r: String)
    ensures
        r@ == lowercase(s@),
        all_ascii(s@) ==> r@ == lower_all(s@),
{
    s.to_lowercase()
}

/// What `{:?}` makes of a text: the text in quotes, with what cannot be read
/// written as an escape.
pub uninterp spec fn debugged(s: Seq<char>) -> Seq<char>;

/// A character that `{:?}` writes as it is: printable ASCII, and neither a
/// quote nor a backslash.
pub open spec fn is_unescaped(c: char) -> bool {
    ' ' <= c <= '~' && c != '"' && c != '\'' && c != '\\'
}

/// A text as it is quoted in a sentence: as it is, between quotes, when nothing
/// in it has to be escaped.
pub open spec fn quoted(s: Seq<char>) -> Seq<char> {
    if forall|i: int| 0 <= i < s.len() ==> is_unescaped(#[trigger] s[i]) {
        seq!['"'] + s + seq!['"']
    } else {
        debugged(s)
    }
}

/// `{:?}` of a `str`: a function of the text, and the text itself between
/// quotes when nothing in it has to be escaped. How the rest is escaped is not
/// stated.
#[verifier::external_body]
pub(crate) fn debug_of(s: &str) -> (r: String)
    ensures
        r@ == debugged(s@),
        (forall|i: int| 0 <= i < s@.len() ==> is_unescaped(#[trigger] s@[i])) ==> r@ == seq!['"']
            + s@ + seq!['"'],
{
    format!("{s:?}")
}

// ---- numbers ----

/// The digit of a number below ten.
pub open spec fn digit(n: nat) -> char {
    ((48 + n) as u8) as char
}

/// A number in decimal, with no sign and no leading zeros.
pub open spec fn decimal(n: nat) -> Seq<char>
    decreases n,
{
    if n < 10 {
        seq![digit(n)]
    } else {
        decimal(n / 10).push(digit(n % 10))
    }
}

/// The number that some digits are in decimal.
pub open spec fn digits_value(s: Seq<char>) -> nat
    decreases s.len(),
{
    if s.len() == 0 {
        0
    } else {
        digits_value(s.drop_last()) * 10 + (s.last() as nat - 48) as nat
    }
}

/// Some characters that are all digits, and at least one.
pub open spec fn all_digits(s: Seq<char>) -> bool {
    s.len() > 0 && forall|i: int| 0 <= i < s.len() ==> is_digit(#[trigger] s[i])
}

/// A decimal number is digits, and its value is the number.
pub proof fn lemma_decimal(n: nat)
    ensures
        all_digits(decimal(n)),
        digits_value(decimal(n)) == n,
    decreases n,
{
    if n < 10 {
        let s = seq![digit(n)];
        assert(s.drop_last() =~= Seq::<char>::empty());
        assert(digits_value(s.drop_last()) == 0);
        assert(s.last() as nat - 48 == n);
    } else {
        lemma_decimal(n / 10);
        let s = decimal(n);
        assert(s.drop_last() =~= decimal(n / 10));
        assert(s.last() as nat - 48 == n % 10);
        assert forall|i: int| 0 <= i < s.len() implies is_digit(#[trigger] s[i]) by {
            if i < s.len() - 1 {
                assert(s[i] == decimal(n / 10)[i]);
            }
        }
    }
}

/// A number in decimal.
pub fn decimal_chars(n: u64) -> (v: Vec<char>)
    ensures
        v@ == decimal(n as nat),
    decreases n,
{
    if n < 10 {
        let mut v: Vec<char> = Vec::new();
        v.push((48 + n as u8) as char);
        v
    } else {
        let mut v = decimal_chars(n / 10);
        v.push((48 + (n % 10) as u8) as char);
        v
    }
}

/// A number in decimal.
pub fn decimal_string(n: u64) -> (s: String)
    ensures
        s@ == decimal(n as nat),
{
    let v = decimal_chars(n);
    string_of(v.as_slice())
}

/// The number a text is, when it is one: digits, perhaps after a `+`, whose
/// value is at most `max`.
pub open spec fn number(s: Seq<char>, max: nat) -> Option<nat> {
    let body = if s.len() > 0 && s[0] == '+' {
        s.drop_first()
    } else {
        s
    };
    if all_digits(body) && digits_value(body) <= max {
        Some(digits_value(body))
    } else {
        None
    }
}

/// The value of digits grows with each one added.
pub proof fn lemma_digits_value_grows(s: Seq<char>, n: int)
    requires
        0 <= n <= s.len(),
    ensures
        digits_value(s.take(n)) <= digits_value(s),
    decreases s.len() - n,
{
    if n == s.len() {
        assert(s.take(n) =~= s);
    } else {
        lemma_digits_value_grows(s, n + 1);
        assert(s.take(n + 1).drop_last() =~= s.take(n));
        let v = digits_value(s.take(n));
        assert(v <= v * 10);
    }
}

/// The number a text is, when it is one no larger than `max`.
pub fn parse_number(s: &[char], max: u64) -> (r: Option<u64>)
    ensures
        match r {
            Some(n) => number(s@, max as nat) == Some(n as nat),
            None => number(s@, max as nat) is None,
        },
{
    let body = if s.len() > 0 && s[0] == '+' {
        proof {
            assert(s@.drop_first() =~= s@.subrange(1, s@.len() as int));
        }
        slice_subrange(s, 1, s.len())
    } else {
        s
    };
    let ghost b = body@;
    if body.len() == 0 {
        return None;
    }
    let mut i: usize = 0;
    let mut n: u64 = 0;
    proof {
        assert(b.take(0) =~= Seq::<char>::empty());
    }
    while i < body.len()
        invariant
            b == body@,
            i <= b.len(),
            forall|j: int| 0 <= j < i ==> is_digit(#[trigger] b[j]),
            n == digits_value(b.take(i as int)),
            n <= max,
            b == (if s@.len() > 0 && s@[0] == '+' { s@.drop_first() } else { s@ }),
        decreases b.len() - i,
    {
        let c = body[i];
        if !is_digit_char(c) {
            assert(!is_digit(b[i as int]));
            return None;
        }
        let d: u64 = (c as u32 - 48) as u64;
        proof {
            assert(b.take(i + 1).drop_last() =~= b.take(i as int));
            assert(b.take(i + 1).last() == c);
            lemma_digits_value_grows(b, i + 1);
            assert(digits_value(b.take(i + 1)) == n * 10 + d);
        }
        if n > max / 10 || d > max - n * 10 {
            return None;
        }
        n = n * 10 + d;
        i += 1;
    }
    proof {
        assert(b.take(i as int) =~= b);
    }
    Some(n)
}

/// Trimming takes the white space at both ends and nothing else.
pub proof fn law_trimming_takes_the_ends(a: Seq<char>, middle: Seq<char>, b: Seq<char>)
    requires
        forall|i: int| 0 <= i < a.len() ==> is_space(#[trigger] a[i]),
        forall|i: int| 0 <= i < b.len() ==> is_space(#[trigger] b[i]),
        middle.len() > 0 ==> !is_space(middle[0]) && !is_space(middle.last()),
        middle.len() == 0 ==> b.len() == 0,
    ensures
        trim(a + middle + b) == middle,
    decreases a.len() + b.len(),
{
    let s = a + middle + b;
    if a.len() > 0 {
        assert(s[0] == a[0]);
        assert(s.drop_first() =~= a.drop_first() + middle + b);
        assert forall|i: int| 0 <= i < a.drop_first().len() implies is_space(
            #[trigger] a.drop_first()[i],
        ) by {
            assert(a.drop_first()[i] == a[i + 1]);
        }
        law_trimming_takes_the_ends(a.drop_first(), middle, b);
    } else if middle.len() == 0 {
        assert(s =~= Seq::<char>::empty());
        assert(trim_start(s) =~= s);
        assert(trim(s) =~= middle);
    } else {
        assert(s =~= middle + b);
        assert(s[0] == middle[0]);
        assert(trim_start(s) == s);
        lemma_trim_the_end(middle, b);
    }
}

proof fn lemma_trim_the_end(middle: Seq<char>, b: Seq<char>)
    requires
        middle.len() > 0,
        !is_space(middle.last()),
        forall|i: int| 0 <= i < b.len() ==> is_space(#[trigger] b[i]),
    ensures
        trim_end(middle + b) == middle,
    decreases b.len(),
{
    let s = middle + b;
    if b.len() == 0 {
        assert(s =~= middle);
    } else {
        assert(s.last() == b[b.len() - 1]);
        assert(s.drop_last() =~= middle + b.drop_last());
        assert forall|i: int| 0 <= i < b.drop_last().len() implies is_space(
            #[trigger] b.drop_last()[i],
        ) by {
            assert(b.drop_last()[i] == b[i]);
        }
        lemma_trim_the_end(middle, b.drop_last());
    }
}

/// Capitals become small and nothing else changes.
pub proof fn law_capitals_become_small(c: char, s: Seq<char>, i: int)
    requires
        0 <= i < s.len(),
    ensures
        65 <= c as int <= 90 ==> lower(c) as int == c as int + 32,
        !(65 <= c as int <= 90) ==> lower(c) == c,
        lower_all(s).len() == s.len(),
        lower_all(s)[i] == lower(s[i]),
{
}

/// A number is written in the fewest digits that say it, the highest first, and is
/// read back as itself when it is not too large.
pub proof fn law_a_number_reads_back(n: nat, d: nat, max: nat)
    requires
        d < 10,
    ensures
        n > 0 ==> decimal(10 * n + d) == decimal(n) + seq![('0' as int + d) as char],
        decimal(d) == seq![('0' as int + d) as char],
        n <= max ==> number(decimal(n), max) == Some(n),
        n > max ==> number(decimal(n), max) is None,
        n > 0 ==> decimal(n)[0] != '0',
{
    lemma_decimal(n);
    assert(is_digit(decimal(n)[0]));
    lemma_no_leading_nought(n);
    if n > 0 {
        assert((10 * n + d) / 10 == n);
        assert((10 * n + d) % 10 == d);
        assert(decimal(10 * n + d) =~= decimal(n) + seq![('0' as int + d) as char]);
    }
}

proof fn lemma_no_leading_nought(n: nat)
    ensures
        decimal(n).len() > 0,
        n > 0 ==> decimal(n)[0] != '0',
    decreases n,
{
    if n >= 10 {
        lemma_no_leading_nought(n / 10);
        assert(decimal(n)[0] == decimal(n / 10)[0]);
    }
}

/// A text is cut at every separator and nowhere else.
pub proof fn law_a_text_is_cut_at_its_separators(a: Seq<char>, b: Seq<char>, sep: char)
    requires
        !a.contains(sep),
    ensures
        pieces(a, sep) == seq![a],
        pieces(a + seq![sep] + b, sep) == seq![a] + pieces(b, sep),
{
    let s = a + seq![sep] + b;
    lemma_index_of(a, sep);
    assert forall|j: int| 0 <= j < a.len() implies s[j] != sep by {
        assert(s[j] == a[j]);
        assert(a.contains(a[j]));
    }
    lemma_index_of_is(s, sep, a.len() as int);
    assert(s.take(a.len() as int) =~= a);
    assert(s.skip(a.len() as int + 1) =~= b);
}

/// What is white space, what is control and what is neither.
pub proof fn law_a_character_is_of_its_kind(c: char)
    ensures
        c == ' ' || c == '\t' || c == '\n' || c == '\r' || c == '\u{a0}' || c == '\u{3000}'
            ==> is_space(c),
        '!' <= c <= '~' ==> !is_space(c) && !is_control(c),
        c < ' ' || c == '\u{7f}' ==> is_control(c),
        is_digit(c) <==> 48 <= c as int <= 57,
        is_letter(c) <==> 65 <= c as int <= 90 || 97 <= c as int <= 122,
        is_hex(c) <==> 48 <= c as int <= 57 || 65 <= c as int <= 70 || 97 <= c as int <= 102,
{
}

}
