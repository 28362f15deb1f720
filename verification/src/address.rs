//! What a person types where a url goes, turned into a url.
//!
//! A scheme is left alone. Anything else gets `https://`, except a path, which
//! is a file, and a host that can only be this machine, which has no
//! certificate and gets `http://`. With a search url, what is words rather than
//! a place is searched for; without one, nothing typed is sent anywhere but
//! where it names.
use vstd::prelude::*;
use vstd::slice::slice_subrange;

use crate::bytes::utf8;
use crate::glass::lemma_first_piece;
use crate::strings::{
    all_digits, char_lists, chars_of, copied, digits_value, ends, ends_with_word,
    find, holds, index_of, is_digit, is_digit_char, is_letter, is_letter_char, is_space, is_space_char, is_word,
    lemma_index_of, lemma_trim_end, lemma_trim_start, lower, lower_all, lower_chars, occurs_at, occurs_word,
    parse_number, pieces, position, split, starts, starts_with_word, string_of, trim, trim_chars,
    trim_end, trim_start,
};
use crate::text::{
    all_plain, law_plain_text_is_left_alone, law_sanitized_is_plain, lemma_joined_is_plain,
    lemma_trimmed_is_plain, plain, sanitize_chars, sanitized,
};

verus! {

// ---- what Unicode calls a letter ----

/// What `char::is_alphabetic` says of a character.
pub uninterp spec fn alphabetic(c: char) -> bool;

/// What `char::is_alphanumeric` says of a character.
pub uninterp spec fn alphanumeric(c: char) -> bool;

/// `char::is_alphabetic`: whether Unicode calls a character alphabetic. Of the
/// characters of ASCII those are the letters; of the rest only that the answer
/// is a function of the character is stated.
#[verifier::external_body]
fn is_alphabetic_char(c: char) -> (r: bool)
    ensures
        r == alphabetic(c),
        c <= '\u{7f}' ==> r == is_letter(c),
{
    c.is_alphabetic()
}

/// `char::is_alphanumeric`: whether Unicode calls a character alphabetic or
/// numeric. Of the characters of ASCII those are the letters and the digits; of
/// the rest only that the answer is a function of the character is stated.
#[verifier::external_body]
fn is_alphanumeric_char(c: char) -> (r: bool)
    ensures
        r == alphanumeric(c),
        c <= '\u{7f}' ==> r == (is_letter(c) || is_digit(c)),
{
    c.is_alphanumeric()
}

/// A letter, of any script.
pub open spec fn is_any_letter(c: char) -> bool {
    if c <= '\u{7f}' {
        is_letter(c)
    } else {
        alphabetic(c)
    }
}

/// A letter or a digit, of any script.
pub open spec fn is_letter_or_digit(c: char) -> bool {
    if c <= '\u{7f}' {
        is_letter(c) || is_digit(c)
    } else {
        alphanumeric(c)
    }
}

// ---- the host ----

/// A character of a scheme. A colon is of one that stands in front of another,
/// as in `view-source:https://`.
pub open spec fn of_a_scheme(c: char) -> bool {
    is_letter(c) || is_digit(c) || c == '+' || c == '-' || c == '.' || c == ':'
}

/// A text starts with a scheme: a letter, and nothing that is not of a scheme
/// before the `://`.
pub open spec fn has_scheme(text: Seq<char>) -> bool {
    exists|n: int|
        {
            &&& 0 < n
            &&& #[trigger] occurs_at(text, "://"@, n)
            &&& is_letter(text[0])
            &&& forall|i: int| 0 <= i < n ==> of_a_scheme(#[trigger] text[i])
        }
}

/// A text says what it is itself: a scheme, or `about:` or `data:`.
pub open spec fn says_what_it_is(text: Seq<char>) -> bool {
    has_scheme(text) || starts(text, "about:"@) || starts(text, "data:"@)
}

/// Whether a text starts with a scheme.
fn scheme_first(text: &[char]) -> (r: bool)
    ensures
        r == has_scheme(text@),
{
    let mut i: usize = 0;
    while i < text.len() && (is_letter_char(text[i]) || is_digit_char(text[i]) || text[i] == '+'
        || text[i] == '-' || text[i] == '.' || text[i] == ':')
        invariant
            i <= text@.len(),
            forall|j: int| 0 <= j < i ==> of_a_scheme(#[trigger] text@[j]),
        decreases text@.len() - i,
    {
        i += 1;
    }
    let r = 1 < i && occurs_word(text, "://", i - 1) && is_letter_char(text[0]);
    proof {
        reveal_strlit("://");
        if has_scheme(text@) {
            let n = choose|n: int|
                {
                    &&& 0 < n
                    &&& #[trigger] occurs_at(text@, "://"@, n)
                    &&& is_letter(text@[0])
                    &&& forall|i: int| 0 <= i < n ==> of_a_scheme(#[trigger] text@[i])
                };
            assert(text@.subrange(n, n + 3)[0] == ':');
            assert(text@.subrange(n, n + 3)[1] == '/');
            assert(text@[n] == ':');
            assert(text@[n + 1] == '/');
            assert(!of_a_scheme(text@[n + 1]));
            assert(i == n + 1);
        }
        if r {
            assert(occurs_at(text@, "://"@, i - 1));
        }
    }
    r
}

/// Whether a text says what it is itself.
fn spelled_out(text: &[char]) -> (r: bool)
    ensures
        r == says_what_it_is(text@),
{
    scheme_first(text) || starts_with_word(text, "about:") || starts_with_word(text, "data:")
}

/// A character that ends the authority of a url.
pub open spec fn ends_authority(c: char) -> bool {
    c == '/' || c == '?' || c == '#'
}

/// What comes before the first `/`, `?` or `#`.
pub open spec fn authority(text: Seq<char>) -> Seq<char>
    decreases text.len(),
{
    if text.len() == 0 || ends_authority(text[0]) {
        Seq::empty()
    } else {
        seq![text[0]] + authority(text.drop_first())
    }
}

/// The host of a text without a scheme, without its port, and whether it had
/// one. An address in brackets keeps them, and the colons inside are no port.
pub open spec fn host_and_port(text: Seq<char>) -> (Seq<char>, bool) {
    let all = authority(text);
    let close = index_of(all, ']');
    let colon = index_of(all, ':');
    if all.len() > 0 && all[0] == '[' {
        if close < all.len() {
            (all.take(close + 1), close + 1 < all.len() && all[close + 1] == ':')
        } else {
            (all, false)
        }
    } else if colon < all.len() {
        (all.take(colon), true)
    } else {
        (all, false)
    }
}

/// The authority of a text is a front of it.
proof fn lemma_authority(text: Seq<char>, n: int)
    requires
        0 <= n <= text.len(),
        forall|i: int| 0 <= i < n ==> !ends_authority(#[trigger] text[i]),
        n < text.len() ==> ends_authority(text[n]),
    ensures
        authority(text) == text.take(n),
    decreases n,
{
    if n == 0 {
        assert(text.take(0) =~= Seq::<char>::empty());
    } else {
        let rest = text.drop_first();
        assert(!ends_authority(text[0]));
        assert forall|i: int| 0 <= i < n - 1 implies !ends_authority(#[trigger] rest[i]) by {
            assert(rest[i] == text[i + 1]);
        }
        lemma_authority(rest, n - 1);
        assert(seq![text[0]] + rest.take(n - 1) =~= text.take(n));
    }
}

/// The host of something typed without a scheme, without its port, and whether
/// it had one.
fn host_of(text: &[char]) -> (r: (&[char], bool))
    ensures
        (r.0@, r.1) == host_and_port(text@),
{
    let mut n: usize = 0;
    while n < text.len() && !(text[n] == '/' || text[n] == '?' || text[n] == '#')
        invariant
            n <= text@.len(),
            forall|i: int| 0 <= i < n ==> !ends_authority(#[trigger] text@[i]),
        decreases text@.len() - n,
    {
        n += 1;
    }
    let all = slice_subrange(text, 0, n);
    proof {
        lemma_authority(text@, n as int);
        assert(all@ =~= text@.take(n as int));
        lemma_index_of(all@, ']');
        lemma_index_of(all@, ':');
    }
    if all.len() > 0 && all[0] == '[' {
        let close = position(all, ']');
        if close < all.len() {
            let host = slice_subrange(all, 0, close + 1);
            proof {
                assert(host@ =~= all@.take(close + 1));
            }
            return (host, close + 1 < all.len() && all[close + 1] == ':');
        }
        return (all, false);
    }
    let colon = position(all, ':');
    if colon < all.len() {
        let host = slice_subrange(all, 0, colon);
        proof {
            assert(host@ =~= all@.take(colon as int));
        }
        (host, true)
    } else {
        (all, false)
    }
}

/// A number from 0 to 255 in decimal.
pub open spec fn is_octet(s: Seq<char>) -> bool {
    all_digits(s) && digits_value(s) <= 255
}

/// Whether a text is a number from 0 to 255 in decimal.
fn octet(s: &[char]) -> (r: bool)
    ensures
        r == is_octet(s@),
{
    if s.len() == 0 || s[0] == '+' {
        proof {
            if s@.len() > 0 {
                assert(!is_digit(s@[0]));
            }
        }
        return false;
    }
    parse_number(s, 255).is_some()
}

/// Four octets.
pub open spec fn is_ipv4(labels: Seq<Seq<char>>) -> bool {
    labels.len() == 4 && forall|i: int| 0 <= i < 4 ==> is_octet(#[trigger] labels[i])
}

/// Whether some labels are four octets.
fn ipv4(labels: &Vec<Vec<char>>) -> (r: bool)
    ensures
        r == is_ipv4(char_lists(labels@)),
{
    let ghost all = char_lists(labels@);
    if labels.len() != 4 {
        return false;
    }
    let mut i: usize = 0;
    while i < 4
        invariant
            i <= 4,
            all == char_lists(labels@),
            labels@.len() == 4,
            forall|j: int| 0 <= j < i ==> is_octet(#[trigger] all[j]),
        decreases 4 - i,
    {
        assert(all[i as int] == labels@[i as int]@);
        if !octet(labels[i].as_slice()) {
            return false;
        }
        i += 1;
    }
    true
}

/// A host that can only be this machine: `localhost` and what is under it,
/// `127.0.0.0/8`, and `[::1]`.
pub open spec fn is_local(host: Seq<char>) -> bool {
    let host = lower_all(host);
    let octets = pieces(host, '.');
    ||| host == "localhost"@
    ||| ends(host, ".localhost"@)
    ||| host == "[::1]"@
    ||| (is_ipv4(octets) && octets[0] == "127"@)
}

/// Whether a host can only be this machine.
fn local_host(host: &[char]) -> (r: bool)
    ensures
        r == is_local(host@),
{
    let host = lower_chars(host);
    if is_word(host.as_slice(), "localhost") || ends_with_word(host.as_slice(), ".localhost")
        || is_word(host.as_slice(), "[::1]") {
        return true;
    }
    let octets = split(host.as_slice(), '.');
    proof {
        assert(char_lists(octets@)[0] == octets@[0]@);
    }
    ipv4(&octets) && is_word(octets[0].as_slice(), "127")
}

// ---- a url out of what was typed ----

/// The url in a text that is plain and trimmed.
pub open spec fn url_of(text: Seq<char>) -> Seq<char> {
    if text.len() == 0 {
        "about:blank"@
    } else if says_what_it_is(text) {
        text
    } else if text[0] == '/' {
        "file://"@ + text
    } else if is_local(host_and_port(text).0) {
        "http://"@ + text
    } else {
        "https://"@ + text
    }
}

/// The url in what was typed.
pub open spec fn normalised(input: Seq<char>) -> Seq<char> {
    url_of(trim(sanitized(input)))
}

/// The url in a text that is plain and trimmed.
fn url_in(text: &[char]) -> (r: String)
    ensures
        r@ == url_of(text@),
{
    if text.len() == 0 {
        return "about:blank".to_owned();
    }
    if spelled_out(text) {
        return string_of(text);
    }
    let rest = string_of(text);
    if text[0] == '/' {
        return "file://".to_owned().concat(rest.as_str());
    }
    if local_host(host_of(text).0) {
        return "http://".to_owned().concat(rest.as_str());
    }
    "https://".to_owned().concat(rest.as_str())
}

/// What a person typed, turned into something `Page.navigate` will take: plain
/// text first, because it is going to be both shown on the row and sent to the
/// engine.
pub fn normalise(input: &str) -> (r: String)
    ensures
        r@ == normalised(input@),
{
    let input = chars_of(input);
    let text = sanitize_chars(input.as_slice());
    url_in(trim_chars(text.as_slice()))
}

// ---- words ----

/// A label of digits.
pub open spec fn is_number_label(s: Seq<char>) -> bool {
    s.len() > 0 && forall|i: int| 0 <= i < s.len() ==> is_digit(#[trigger] s[i])
}

/// A label that a host can have: letters and digits of any script, and
/// hyphens.
pub open spec fn is_host_label(s: Seq<char>) -> bool {
    s.len() > 0 && forall|i: int|
        0 <= i < s.len() ==> (is_letter_or_digit(#[trigger] s[i]) || s[i] == '-')
}

/// There is a letter, of any script, in a text.
pub open spec fn has_letter(s: Seq<char>) -> bool {
    exists|i: int| 0 <= i < s.len() && is_any_letter(#[trigger] s[i])
}

/// There is white space in a text.
pub open spec fn has_gap(s: Seq<char>) -> bool {
    exists|i: int| 0 <= i < s.len() && is_space(#[trigger] s[i])
}

/// A text that is plain, trimmed, not empty, no path and without a scheme is
/// words rather than a place.
///
/// Nothing with a space in it is a place. This machine is one, and anything in
/// brackets. A host of numbers alone is one when it is an IPv4 address. Of the
/// others, one label is a place only with a port, and more are when each could
/// be a host's and the last has a letter in it.
pub open spec fn is_words(text: Seq<char>) -> bool {
    let (host, port) = host_and_port(text);
    let labels = pieces(host, '.');
    if has_gap(text) {
        true
    } else if is_local(host) || (host.len() > 0 && host[0] == '[') {
        false
    } else if forall|i: int| 0 <= i < labels.len() ==> is_number_label(#[trigger] labels[i]) {
        !is_ipv4(labels)
    } else if labels.len() < 2 {
        !port
    } else {
        !((forall|i: int| 0 <= i < labels.len() ==> is_host_label(#[trigger] labels[i]))
            && has_letter(labels.last()))
    }
}

/// Whether a text is a label of digits.
fn number_label(s: &[char]) -> (r: bool)
    ensures
        r == is_number_label(s@),
{
    let mut i: usize = 0;
    while i < s.len()
        invariant
            i <= s@.len(),
            forall|j: int| 0 <= j < i ==> is_digit(#[trigger] s@[j]),
        decreases s@.len() - i,
    {
        if !is_digit_char(s[i]) {
            assert(!is_digit(s@[i as int]));
            return false;
        }
        i += 1;
    }
    s.len() > 0
}

/// Whether a text is a label that a host can have.
fn host_label(s: &[char]) -> (r: bool)
    ensures
        r == is_host_label(s@),
{
    let mut i: usize = 0;
    while i < s.len()
        invariant
            i <= s@.len(),
            forall|j: int| 0 <= j < i ==> (is_letter_or_digit(#[trigger] s@[j]) || s@[j] == '-'),
        decreases s@.len() - i,
    {
        if !(is_alphanumeric_char(s[i]) || s[i] == '-') {
            assert(!is_letter_or_digit(s@[i as int]));
            return false;
        }
        i += 1;
    }
    s.len() > 0
}

/// Whether there is a letter in a text.
fn letter_in(s: &[char]) -> (r: bool)
    ensures
        r == has_letter(s@),
{
    let mut i: usize = 0;
    while i < s.len()
        invariant
            i <= s@.len(),
            forall|j: int| 0 <= j < i ==> !is_any_letter(#[trigger] s@[j]),
        decreases s@.len() - i,
    {
        if is_alphabetic_char(s[i]) {
            assert(is_any_letter(s@[i as int]));
            return true;
        }
        i += 1;
    }
    false
}

/// Whether there is white space in a text.
fn gap_in(s: &[char]) -> (r: bool)
    ensures
        r == has_gap(s@),
{
    let mut i: usize = 0;
    while i < s.len()
        invariant
            i <= s@.len(),
            forall|j: int| 0 <= j < i ==> !is_space(#[trigger] s@[j]),
        decreases s@.len() - i,
    {
        if is_space_char(s[i]) {
            assert(is_space(s@[i as int]));
            return true;
        }
        i += 1;
    }
    false
}

/// Whether every label is one of digits.
fn all_number_labels(labels: &Vec<Vec<char>>) -> (r: bool)
    ensures
        r == (forall|i: int|
            0 <= i < char_lists(labels@).len() ==> is_number_label(
                #[trigger] char_lists(labels@)[i],
            )),
{
    let ghost all = char_lists(labels@);
    let mut i: usize = 0;
    while i < labels.len()
        invariant
            i <= labels@.len(),
            all == char_lists(labels@),
            forall|j: int| 0 <= j < i ==> is_number_label(#[trigger] all[j]),
        decreases labels@.len() - i,
    {
        assert(all[i as int] == labels@[i as int]@);
        if !number_label(labels[i].as_slice()) {
            return false;
        }
        i += 1;
    }
    true
}

/// Whether every label is one that a host can have.
fn all_host_labels(labels: &Vec<Vec<char>>) -> (r: bool)
    ensures
        r == (forall|i: int|
            0 <= i < char_lists(labels@).len() ==> is_host_label(
                #[trigger] char_lists(labels@)[i],
            )),
{
    let ghost all = char_lists(labels@);
    let mut i: usize = 0;
    while i < labels.len()
        invariant
            i <= labels@.len(),
            all == char_lists(labels@),
            forall|j: int| 0 <= j < i ==> is_host_label(#[trigger] all[j]),
        decreases labels@.len() - i,
    {
        assert(all[i as int] == labels@[i as int]@);
        if !host_label(labels[i].as_slice()) {
            return false;
        }
        i += 1;
    }
    true
}

/// Whether a text is something to search for rather than somewhere to go.
fn is_search(text: &[char]) -> (r: bool)
    ensures
        r == is_words(text@),
{
    if gap_in(text) {
        return true;
    }
    let (host, port) = host_of(text);
    if local_host(host) || (host.len() > 0 && host[0] == '[') {
        return false;
    }
    let labels = split(host, '.');
    if all_number_labels(&labels) {
        return !ipv4(&labels);
    }
    if labels.len() < 2 {
        return !port;
    }
    proof {
        assert(char_lists(labels@).last() == labels@.last()@);
    }
    !(all_host_labels(&labels) && letter_in(labels[labels.len() - 1].as_slice()))
}

// ---- words in a url ----

/// A byte that stands for itself in a url's query.
pub open spec fn is_unreserved(b: u8) -> bool {
    ||| 48 <= b <= 57
    ||| 65 <= b <= 90
    ||| 97 <= b <= 122
    ||| b == 45
    ||| b == 46
    ||| b == 95
    ||| b == 126
}

/// A hexadecimal digit.
pub open spec fn hex_digit(n: int) -> char {
    if n < 10 {
        (48 + n) as char
    } else {
        (55 + n) as char
    }
}

/// A byte in a url's query: itself, or `%` and two hexadecimal digits.
pub open spec fn escaped_byte(b: u8) -> Seq<char> {
    if is_unreserved(b) {
        seq![b as char]
    } else {
        seq!['%', hex_digit(b as int / 16), hex_digit(b as int % 16)]
    }
}

/// Bytes in a url's query.
pub open spec fn escaped(bytes: Seq<u8>) -> Seq<char>
    decreases bytes.len(),
{
    if bytes.len() == 0 {
        Seq::empty()
    } else {
        escaped(bytes.drop_last()) + escaped_byte(bytes.last())
    }
}

/// A hexadecimal digit.
fn hex(n: u8) -> (c: char)
    requires
        n < 16,
    ensures
        c == hex_digit(n as int),
{
    if n < 10 {
        (48 + n) as char
    } else {
        (55 + n) as char
    }
}

/// Words made safe to put in a url's query: the unreserved characters as they
/// are, and every other byte of the UTF-8 as `%XX`.
fn percent_encode(text: &str) -> (r: Vec<char>)
    ensures
        r@ == escaped(utf8(text@)),
{
    let bytes = text.as_bytes();
    let mut out: Vec<char> = Vec::new();
    let mut i: usize = 0;
    while i < bytes.len()
        invariant
            i <= bytes@.len(),
            out@ == escaped(bytes@.take(i as int)),
        decreases bytes@.len() - i,
    {
        let b = bytes[i];
        proof {
            assert(bytes@.take(i + 1).drop_last() =~= bytes@.take(i as int));
            assert(bytes@.take(i + 1).last() == b);
        }
        let ghost before = out@;
        if (48 <= b && b <= 57) || (65 <= b && b <= 90) || (97 <= b && b <= 122) || b == 45 || b
            == 46 || b == 95 || b == 126 {
            out.push(b as char);
            assert(out@ =~= before + escaped_byte(b));
        } else {
            out.push('%');
            out.push(hex(b / 16));
            out.push(hex(b % 16));
            assert(out@ =~= before + escaped_byte(b));
        }
        i += 1;
    }
    proof {
        assert(bytes@.take(i as int) =~= bytes@);
    }
    out
}

/// Where `p` first stands in a text that has it.
pub open spec fn first_place(s: Seq<char>, p: Seq<char>) -> int {
    choose|i: int|
        #[trigger] occurs_at(s, p, i) && forall|j: int| 0 <= j < i ==> !occurs_at(s, p, j)
}

/// A search url with its first `%s` replaced; one without any is left alone.
pub open spec fn filled_in(search_url: Seq<char>, words: Seq<char>) -> Seq<char> {
    let at = first_place(search_url, "%s"@);
    if holds(search_url, "%s"@) {
        search_url.take(at) + words + search_url.skip(at + 2)
    } else {
        search_url
    }
}

/// Put words in a search url.
fn fill_in(search_url: &[char], words: &[char]) -> (r: Vec<char>)
    ensures
        r@ == filled_in(search_url@, words@),
{
    let mark = chars_of("%s");
    match find(search_url, mark.as_slice()) {
        None => copied(search_url),
        Some(at) => {
            proof {
                reveal_strlit("%s");
                let there = first_place(search_url@, "%s"@);
                assert(occurs_at(search_url@, "%s"@, at as int));
                assert(occurs_at(search_url@, "%s"@, there));
                if there < at {
                    assert(!occurs_at(search_url@, "%s"@, there));
                }
                if at < there {
                    assert(!occurs_at(search_url@, "%s"@, at as int));
                }
            }
            let end: usize = search_url.len();
            let mut out = copied(slice_subrange(search_url, 0, at));
            let mut middle = copied(words);
            let mut tail = copied(slice_subrange(search_url, at + 2, end));
            out.append(&mut middle);
            out.append(&mut tail);
            proof {
                assert(out@ =~= filled_in(search_url@, words@));
            }
            out
        },
    }
}

/// A trimmed, plain text is somewhere to go, whatever search url there is.
pub open spec fn is_place(text: Seq<char>) -> bool {
    text.len() == 0 || says_what_it_is(text) || text[0] == '/' || !is_words(text)
}

/// Where the url bar goes.
pub open spec fn went(input: Seq<char>, search_url: Option<Seq<char>>) -> Seq<char> {
    let text = trim(sanitized(input));
    match search_url {
        Some(search_url) => if is_place(text) {
            normalised(input)
        } else {
            filled_in(search_url, escaped(utf8(text)))
        },
        None => normalised(input),
    }
}

/// Where the url bar goes with what was typed: [`normalise`], unless a search
/// url was given and what was typed is words rather than a place. The words
/// replace the first `%s` in the search url, percent-encoded.
pub fn destination(input: &str, search_url: Option<&str>) -> (r: String)
    ensures
        r@ == went(
            input@,
            match search_url {
                Some(s) => Some(s@),
                None => None,
            },
        ),
{
    let search_url = match search_url {
        Some(s) => s,
        None => return normalise(input),
    };
    let chars = chars_of(input);
    let plain_text = sanitize_chars(chars.as_slice());
    let text = trim_chars(plain_text.as_slice());
    if text.len() == 0 || spelled_out(text) || text[0] == '/' || !is_search(text) {
        return normalise(input);
    }
    let words = percent_encode(string_of(text).as_str());
    let out = fill_in(chars_of(search_url).as_slice(), words.as_slice());
    string_of(out.as_slice())
}

// ---- laws ----

/// Without a search url, nothing typed is sent anywhere but where it names.
pub proof fn law_without_a_search_url_everything_is_a_place(input: Seq<char>)
    ensures
        went(input, None) == normalised(input),
{
}

/// The prefixes that a url is given are plain, and none starts with a space.
proof fn lemma_prefixes()
    ensures
        all_plain("about:blank"@),
        all_plain("file://"@),
        all_plain("http://"@),
        all_plain("https://"@),
        "about:blank"@.len() == 11,
        "about:blank"@[0] == 'a',
        "about:blank"@[10] == 'k',
        starts("about:blank"@, "about:"@),
        "file://"@.len() == 7,
        "http://"@.len() == 7,
        "https://"@.len() == 8,
        "file://"@[0] == 'f',
        "http://"@[0] == 'h',
        "https://"@[0] == 'h',
        occurs_at("file://"@, "://"@, 4),
        occurs_at("http://"@, "://"@, 4),
        occurs_at("https://"@, "://"@, 5),
        forall|i: int| 0 <= i < 4 ==> of_a_scheme(#[trigger] "file://"@[i]),
        forall|i: int| 0 <= i < 4 ==> of_a_scheme(#[trigger] "http://"@[i]),
        forall|i: int| 0 <= i < 5 ==> of_a_scheme(#[trigger] "https://"@[i]),
{
    reveal_strlit("about:blank");
    reveal_strlit("about:");
    reveal_strlit("file://");
    reveal_strlit("http://");
    reveal_strlit("https://");
    reveal_strlit("://");
    assert("about:blank"@.subrange(0, 6) =~= "about:"@);
    assert("file://"@.subrange(4, 7) =~= "://"@);
    assert("http://"@.subrange(4, 7) =~= "://"@);
    assert("https://"@.subrange(5, 8) =~= "://"@);
}

/// Whatever was typed, or pasted, the url it becomes is plain text: what is
/// shown on the row is what is sent, and neither can be an escape.
pub proof fn law_a_url_is_plain(input: Seq<char>)
    ensures
        all_plain(normalised(input)),
{
    let text = trim(sanitized(input));
    law_sanitized_is_plain(input);
    lemma_trimmed_is_plain(sanitized(input));
    lemma_prefixes();
    lemma_joined_is_plain("file://"@, text);
    lemma_joined_is_plain("http://"@, text);
    lemma_joined_is_plain("https://"@, text);
}

/// A text whose ends are no white space is left alone by trimming.
proof fn lemma_trimming_nothing(s: Seq<char>)
    requires
        s.len() > 0 ==> !is_space(s[0]) && !is_space(s.last()),
    ensures
        trim(s) == s,
{
}

/// A text after a scheme has the scheme.
proof fn lemma_joined_has_scheme(a: Seq<char>, b: Seq<char>, n: int)
    requires
        0 < n,
        occurs_at(a, "://"@, n),
        is_letter(a[0]),
        forall|i: int| 0 <= i < n ==> of_a_scheme(#[trigger] a[i]),
    ensures
        has_scheme(a + b),
{
    reveal_strlit("://");
    assert((a + b).subrange(n, n + 3) =~= a.subrange(n, n + 3));
    assert(occurs_at(a + b, "://"@, n));
    assert forall|i: int| 0 <= i < n implies of_a_scheme(#[trigger] (a + b)[i]) by {
        assert((a + b)[i] == a[i]);
    }
}

/// Whatever was typed, the url it becomes says what it is: a scheme is left
/// alone, and anything else gets one.
pub proof fn law_a_url_says_what_it_is(input: Seq<char>)
    ensures
        says_what_it_is(normalised(input)),
        says_what_it_is(trim(sanitized(input))) ==> normalised(input) == trim(sanitized(input)),
{
    let text = trim(sanitized(input));
    lemma_prefixes();
    lemma_joined_has_scheme("file://"@, text, 4);
    lemma_joined_has_scheme("http://"@, text, 4);
    lemma_joined_has_scheme("https://"@, text, 5);
    reveal_strlit("about:");
    reveal_strlit("data:");
    reveal_strlit("://");
    assert(text.len() == 0 ==> !says_what_it_is(text));
}

/// A url that came out of what was typed is the url when it is typed again.
pub proof fn law_a_url_stays_a_url(input: Seq<char>)
    ensures
        normalised(normalised(input)) == normalised(input),
{
    let text = trim(sanitized(input));
    let url = normalised(input);
    law_a_url_is_plain(input);
    law_a_url_says_what_it_is(input);
    law_plain_text_is_left_alone(url);
    lemma_prefixes();
    lemma_trim_start(sanitized(input));
    lemma_trim_end(trim_start(sanitized(input)));
    if text.len() > 0 {
        let left = trim_start(sanitized(input));
        assert(trim_end(left) == left.take(text.len() as int));
        assert(text[0] == left[0]);
        assert(!is_space(text[0]));
        assert(!is_space(text.last()));
    }
    lemma_trimming_nothing(url);
}

/// A character of words made safe for a url is unreserved, or belongs to an
/// escape: nothing in them can end the query.
pub proof fn law_escaped_words_are_safe(bytes: Seq<u8>, i: int)
    requires
        0 <= i < escaped(bytes).len(),
    ensures
        ({
            let c = escaped(bytes)[i];
            ||| c == '%'
            ||| ('0' <= c <= '9')
            ||| ('A' <= c <= 'Z')
            ||| ('a' <= c <= 'z')
            ||| c == '-'
            ||| c == '.'
            ||| c == '_'
            ||| c == '~'
        }),
    decreases bytes.len(),
{
    if bytes.len() > 0 {
        let before = escaped(bytes.drop_last());
        let last = escaped_byte(bytes.last());
        if i < before.len() {
            law_escaped_words_are_safe(bytes.drop_last(), i);
        } else {
            assert(escaped(bytes)[i] == last[i - before.len()]);
        }
    }
}

/// The number that a hexadecimal digit is, in either case.
pub open spec fn nibble(c: char) -> Option<int> {
    if '0' <= c <= '9' {
        Some(c as int - '0' as int)
    } else if 'A' <= c <= 'F' {
        Some(c as int - 'A' as int + 10)
    } else if 'a' <= c <= 'f' {
        Some(c as int - 'a' as int + 10)
    } else {
        None
    }
}

/// The bytes that a server reads out of a part of a query: what stands behind a
/// `%` is a byte in hexadecimal, and any other character of ASCII is itself.
pub open spec fn percent_decoded(s: Seq<char>) -> Option<Seq<u8>>
    decreases s.len(),
{
    if s.len() == 0 {
        Some(Seq::empty())
    } else if s[0] == '%' {
        if s.len() < 3 {
            None
        } else {
            match (nibble(s[1]), nibble(s[2]), percent_decoded(s.skip(3))) {
                (Some(a), Some(b), Some(rest)) => Some(seq![(16 * a + b) as u8] + rest),
                _ => None,
            }
        }
    } else if s[0] > '\u{7f}' {
        None
    } else {
        match percent_decoded(s.skip(1)) {
            Some(rest) => Some(seq![s[0] as u8] + rest),
            None => None,
        }
    }
}

/// Bytes in a query are the first in it, and then the rest.
proof fn lemma_escaped_first(bytes: Seq<u8>)
    requires
        bytes.len() > 0,
    ensures
        escaped(bytes) == escaped_byte(bytes[0]) + escaped(bytes.drop_first()),
    decreases bytes.len(),
{
    if bytes.len() == 1 {
        assert(bytes.drop_last() =~= Seq::<u8>::empty());
        assert(bytes.drop_first() =~= Seq::<u8>::empty());
        assert(escaped(bytes) =~= escaped_byte(bytes[0]) + escaped(bytes.drop_first()));
    } else {
        lemma_escaped_first(bytes.drop_last());
        assert(bytes.drop_last().drop_first() =~= bytes.drop_first().drop_last());
        assert(bytes.drop_first().last() == bytes.last());
        assert(escaped(bytes) =~= escaped_byte(bytes[0]) + (escaped(
            bytes.drop_first().drop_last(),
        ) + escaped_byte(bytes.last())));
    }
}

/// What is put in a query is read out of it again, byte for byte: no two
/// searches become the same query.
pub proof fn law_what_is_escaped_decodes_back(bytes: Seq<u8>)
    ensures
        percent_decoded(escaped(bytes)) == Some(bytes),
    decreases bytes.len(),
{
    if bytes.len() == 0 {
        assert(bytes =~= Seq::<u8>::empty());
    } else {
        let b = bytes[0];
        let rest = bytes.drop_first();
        let e = escaped_byte(b);
        let all = escaped(bytes);
        lemma_escaped_first(bytes);
        law_what_is_escaped_decodes_back(rest);
        assert(all.skip(e.len() as int) =~= escaped(rest));
        assert(seq![b] + rest =~= bytes);
        assert(all[0] == e[0]);
        if e.len() == 3 {
            assert(all[1] == e[1]);
            assert(all[2] == e[2]);
            assert(16 * (b as int / 16) + b as int % 16 == b);
            assert(nibble(hex_digit(b as int / 16)) == Some(b as int / 16));
            assert(nibble(hex_digit(b as int % 16)) == Some(b as int % 16));
        }
    }
}

/// Words that are searched for stand in the search url in place of its first
/// `%s`, and what is there is read out as the words.
pub proof fn law_a_search_is_for_what_was_typed(
    input: Seq<char>,
    before: Seq<char>,
    after: Seq<char>,
)
    requires
        !is_place(trim(sanitized(input))),
        forall|i: int| 0 <= i < before.len() ==> #[trigger] before[i] != '%',
    ensures
        ({
            let url = went(input, Some(before + "%s"@ + after));
            let words = url.subrange(before.len() as int, url.len() - after.len());
            &&& url.len() >= before.len() + after.len()
            &&& url.take(before.len() as int) == before
            &&& url.skip(url.len() - after.len()) == after
            &&& percent_decoded(words) == Some(utf8(trim(sanitized(input))))
        }),
{
    let text = trim(sanitized(input));
    let search = before + "%s"@ + after;
    let words = escaped(utf8(text));
    let n = before.len() as int;
    reveal_strlit("%s");
    law_what_is_escaped_decodes_back(utf8(text));
    assert(search.subrange(n, n + 2) =~= "%s"@);
    assert(occurs_at(search, "%s"@, n));
    assert(holds(search, "%s"@));
    assert forall|j: int| 0 <= j < n implies !occurs_at(search, "%s"@, j) by {
        if occurs_at(search, "%s"@, j) {
            assert(search.subrange(j, j + 2)[0] == '%');
            assert(search[j] == before[j]);
        }
    }
    let at = first_place(search, "%s"@);
    assert(occurs_at(search, "%s"@, at) && forall|j: int|
        0 <= j < at ==> !occurs_at(search, "%s"@, j));
    assert(at == n);
    let url = filled_in(search, words);
    assert(url =~= before + words + after);
    assert(url.subrange(n, url.len() - after.len()) =~= words);
    assert(url.take(n) =~= before);
    assert(url.skip(url.len() - after.len()) =~= after);
}

/// A name of a machine, as far as it matters where it ends: there is a name, and
/// nothing in it ends one.
pub open spec fn is_bare_host(host: Seq<char>) -> bool {
    &&& host.len() > 0
    &&& host[0] != '['
    &&& forall|i: int|
        0 <= i < host.len() ==> !ends_authority(#[trigger] host[i]) && host[i] != ':'
}

/// What may come behind the name of a machine: nothing, or a path, a query or a
/// fragment.
pub open spec fn is_tail(tail: Seq<char>) -> bool {
    tail.len() == 0 || ends_authority(tail[0])
}

proof fn lemma_bare_host(host: Seq<char>, tail: Seq<char>)
    requires
        is_bare_host(host),
        is_tail(tail),
    ensures
        !says_what_it_is(host + tail),
        host_and_port(host + tail) == (host, false),
        (host + tail)[0] != '/',
{
    let text = host + tail;
    let n = host.len() as int;
    reveal_strlit("://");
    reveal_strlit("about:");
    reveal_strlit("data:");
    assert forall|i: int| 0 <= i < n implies !ends_authority(#[trigger] text[i]) by {
        assert(text[i] == host[i]);
    }
    if tail.len() > 0 {
        assert(text[n] == tail[0]);
    }
    lemma_authority(text, n);
    assert(text.take(n) =~= host);
    lemma_index_of(host, ':');
    if index_of(host, ':') < n {
        assert(host[index_of(host, ':')] != ':');
    }
    if has_scheme(text) {
        let k = choose|k: int|
            {
                &&& 0 < k
                &&& #[trigger] occurs_at(text, "://"@, k)
                &&& is_letter(text[0])
                &&& forall|i: int| 0 <= i < k ==> of_a_scheme(#[trigger] text[i])
            };
        assert(text.subrange(k, k + 3)[0] == ':');
        assert(text[k] == ':');
        if k < n {
            assert(host[k] != ':');
        } else if k > n {
            assert(of_a_scheme(text[n]));
        }
    }
    if starts(text, "about:"@) {
        assert(text.subrange(0, 6)[5] == ':');
        if n > 5 {
            assert(host[5] != ':');
        } else {
            assert(text.subrange(0, 6)[n] == text[n]);
        }
    }
    if starts(text, "data:"@) {
        assert(text.subrange(0, 5)[4] == ':');
        if n > 4 {
            assert(host[4] != ':');
        } else {
            assert(text.subrange(0, 5)[n] == text[n]);
        }
    }
    assert(text[0] == host[0]);
    assert(!ends_authority(host[0]));
}

/// What is typed without a scheme is given one, before all of it: this machine's
/// own pages are asked for as they are, and everybody else's over a connection
/// that is private. A path is a file, and nothing is the empty page.
pub proof fn law_an_address_is_given_its_scheme(host: Seq<char>, tail: Seq<char>, path: Seq<char>)
    requires
        is_bare_host(host),
        is_tail(tail),
    ensures
        is_local(host) ==> url_of(host + tail) == "http://"@ + host + tail,
        !is_local(host) ==> url_of(host + tail) == "https://"@ + host + tail,
        !says_what_it_is(seq!['/'] + path) ==> url_of(seq!['/'] + path) == "file:///"@ + path,
        url_of(Seq::empty()) == "about:blank"@,
{
    lemma_bare_host(host, tail);
    assert("http://"@ + host + tail =~= "http://"@ + (host + tail));
    assert("https://"@ + host + tail =~= "https://"@ + (host + tail));
    reveal_strlit("file://");
    reveal_strlit("file:///");
    assert("file://"@ + (seq!['/'] + path) =~= "file:///"@ + path);
    assert((seq!['/'] + path)[0] == '/');
}

/// Which machine is this one: `localhost`, what ends in it after a dot, and every
/// address that starts with 127; a name that does not end in it is another.
pub proof fn law_this_machine_has_its_names(
    name: Seq<char>,
    b: Seq<char>,
    c: Seq<char>,
    d: Seq<char>,
)
    requires
        is_octet(b) && is_octet(c) && is_octet(d),
    ensures
        is_local("localhost"@),
        is_local("LOCALHOST"@),
        is_local(name + ".localhost"@),
        is_local("[::1]"@),
        is_local("127."@ + b + "."@ + c + "."@ + d),
        !ends(lower_all(name), "localhost"@) && pieces(name, '.').len() != 4 && (name.len() == 0
            || name[0] != '[') ==> !is_local(name),
{
    reveal_strlit("localhost");
    reveal_strlit("LOCALHOST");
    reveal_strlit(".localhost");
    reveal_strlit("[::1]");
    reveal_strlit("127.");
    reveal_strlit("127");
    reveal_strlit(".");
    assert(lower_all("localhost"@) =~= "localhost"@);
    assert(lower_all("LOCALHOST"@) =~= "localhost"@);
    assert(lower_all("[::1]"@) =~= "[::1]"@);
    let all = name + ".localhost"@;
    assert(lower_all(all) =~= lower_all(name) + ".localhost"@);
    assert(lower_all(all).subrange(name.len() as int, all.len() as int) =~= ".localhost"@);
    let one = "127"@;
    let dot = seq!['.'];
    let address = "127."@ + b + "."@ + c + "."@ + d;
    assert("."@ =~= dot);
    assert(address =~= one + dot + (b + dot + (c + dot + d)));
    lemma_no_dot(one);
    lemma_no_dot(b);
    lemma_no_dot(c);
    lemma_no_dot(d);
    lemma_first_piece(one, b + dot + (c + dot + d), '.');
    lemma_first_piece(b, c + dot + d, '.');
    lemma_first_piece(c, d, '.');
    lemma_first_piece(d, Seq::empty(), '.');
    assert(pieces(address, '.') =~= seq![one, b, c, d]);
    assert forall|i: int| 0 <= i < address.len() implies #[trigger] lower(address[i]) == address[i] by {
        lemma_in_address(one, b, c, d, i);
    }
    assert(lower_all(address) =~= address);
    assert(is_octet(one)) by {
        assert(one.drop_last() =~= seq!['1', '2']);
        assert(one.drop_last().drop_last() =~= seq!['1']);
        assert(one.drop_last().drop_last().drop_last() =~= Seq::<char>::empty());
        reveal_with_fuel(digits_value, 4);
        assert(digits_value(one) == 127);
    }
    if is_local(name) {
        let low = lower_all(name);
        if low == "localhost"@ {
            assert(low.subrange(0, 9) =~= "localhost"@);
        } else if ends(low, ".localhost"@) {
            let n = low.len() as int;
            assert(low.subrange(n - 9, n) =~= low.subrange(n - 10, n).subrange(1, 10));
            assert(".localhost"@.subrange(1, 10) =~= "localhost"@);
        } else if low == "[::1]"@ {
            assert(lower(name[0]) == low[0]);
        } else {
            lemma_lower_pieces(name);
        }
    }
}

proof fn lemma_no_dot(s: Seq<char>)
    requires
        all_digits(s),
    ensures
        !s.contains('.'),
{
    if s.contains('.') {
        let i = choose|i: int| 0 <= i < s.len() && s[i] == '.';
        assert(is_digit(s[i]));
    }
}

proof fn lemma_in_address(a: Seq<char>, b: Seq<char>, c: Seq<char>, d: Seq<char>, i: int)
    requires
        all_digits(a) && all_digits(b) && all_digits(c) && all_digits(d),
        0 <= i < a.len() + b.len() + c.len() + d.len() + 3,
    ensures
        ({
            let dot = seq!['.'];
            let x = (a + dot + (b + dot + (c + dot + d)))[i];
            is_digit(x) || x == '.'
        }),
{
    let (p, q, r) = (a.len() as int, b.len() as int, c.len() as int);
    if i < p {
        assert(is_digit(a[i]));
    } else if i > p && i < p + 1 + q {
        assert(is_digit(b[i - p - 1]));
    } else if i > p + 1 + q && i < p + q + r + 2 {
        assert(is_digit(c[i - p - q - 2]));
    } else if i > p + q + r + 2 {
        assert(is_digit(d[i - p - q - r - 3]));
    }
}

/// Lower case puts a dot nowhere and takes none away.
proof fn lemma_lower_pieces(s: Seq<char>)
    ensures
        pieces(lower_all(s), '.').len() == pieces(s, '.').len(),
    decreases s.len(),
{
    let low = lower_all(s);
    lemma_index_of(s, '.');
    lemma_index_of(low, '.');
    let i = index_of(s, '.');
    let j = index_of(low, '.');
    if i < j {
        assert(low[i] == lower(s[i]));
    } else if j < i {
        assert(low[j] == lower(s[j]));
    }
    if i < s.len() {
        lemma_lower_pieces(s.skip(i + 1));
        assert(lower_all(s.skip(i + 1)) =~= low.skip(i + 1));
    }
}

/// What has white space in it is words to search for, and so is one word alone;
/// a name with a dot in it whose last part is a word is a place.
pub proof fn law_words_are_searched_and_names_are_not(
    text: Seq<char>,
    word: Seq<char>,
    last: Seq<char>,
    tail: Seq<char>,
)
    requires
        is_tail(tail),
        !has_gap(tail),
        is_bare_host(word),
        is_host_label(word) && is_host_label(last),
        !word.contains('.') && !last.contains('.'),
        !has_gap(word) && !has_gap(last),
        has_letter(last),
        is_bare_host(word + seq!['.'] + last),
    ensures
        has_gap(text) && !says_what_it_is(text) && text[0] != '/' ==> !is_place(text),
        !is_local(word) && !is_number_label(word) ==> !is_place(word + tail),
        !is_number_label(last) ==> is_place(word + seq!['.'] + last + tail),
        is_local(word) ==> is_place(word + tail),
{
    lemma_bare_host(word, tail);
    lemma_first_piece(word, last, '.');
    lemma_first_piece(last, Seq::empty(), '.');
    let name = word + seq!['.'] + last;
    lemma_bare_host(name, tail);
    let labels = pieces(name, '.');
    assert(labels =~= seq![word, last]);
    assert(pieces(word, '.') =~= seq![word]);
    assert(pieces(word, '.')[0] == word);
    assert(labels[0] == word && labels[1] == last);
    assert(!has_gap(word + tail)) by {
        if has_gap(word + tail) {
            let i = choose|i: int| 0 <= i < (word + tail).len() && is_space(#[trigger] (word + tail)[i]);
            if i < word.len() {
                assert(is_space(word[i]));
            } else {
                assert(is_space(tail[i - word.len()]));
            }
        }
    }
    assert(!has_gap(name + tail)) by {
        if has_gap(name + tail) {
            let i = choose|i: int| 0 <= i < (name + tail).len() && is_space(#[trigger] (name + tail)[i]);
            if i < word.len() {
                assert(is_space(word[i]));
            } else if i > word.len() && i < name.len() {
                assert(is_space(last[i - word.len() - 1]));
            } else if i >= name.len() {
                assert(is_space(tail[i - name.len()]));
            }
        }
    }
    if !is_number_label(last) {
        assert(!is_number_label(labels[1]));
    }
}

/// Letters, digits and the four marks that mean nothing in an address stand as
/// they are, and every other byte is a percent sign and its two digits.
pub proof fn law_only_what_must_be_is_escaped(b: u8, bytes: Seq<u8>)
    ensures
        ({
            let stands = 48 <= b <= 57 || 65 <= b <= 90 || 97 <= b <= 122 || b == 0x2d || b == 0x2e
                || b == 0x5f || b == 0x7e;
            &&& stands ==> escaped(bytes.push(b)) == escaped(bytes) + seq![b as char]
            &&& !stands ==> escaped(bytes.push(b)).len() == escaped(bytes).len() + 3
                && escaped(bytes.push(b)).take(escaped(bytes).len() as int) == escaped(bytes)
                && escaped(bytes.push(b))[escaped(bytes).len() as int] == '%'
            &&& escaped(Seq::empty()).len() == 0
        }),
{
    assert(bytes.push(b).drop_last() =~= bytes);
    assert(bytes.push(b).last() == b);
    let all = escaped(bytes.push(b));
    assert(all == escaped(bytes) + escaped_byte(b));
    assert(all.take(escaped(bytes).len() as int) =~= escaped(bytes));
}

/// What starts with a scheme is left as it is: letters, digits and a few marks up
/// to the colon and the slashes.
pub proof fn law_a_scheme_is_left_alone(scheme: Seq<char>, rest: Seq<char>)
    requires
        scheme.len() > 0,
        is_letter(scheme[0]),
        forall|i: int|
            0 <= i < scheme.len() ==> is_letter(#[trigger] scheme[i]) || is_digit(scheme[i])
                || scheme[i] == '+' || scheme[i] == '-' || scheme[i] == '.',
    ensures
        url_of(scheme + seq![':', '/', '/'] + rest) == scheme + seq![':', '/', '/'] + rest,
        url_of("about:"@ + rest) == "about:"@ + rest,
        url_of("data:"@ + rest) == "data:"@ + rest,
{
    reveal_strlit("://");
    reveal_strlit("about:");
    reveal_strlit("data:");
    let text = scheme + seq![':', '/', '/'] + rest;
    let n = scheme.len() as int;
    assert(text.subrange(n, n + 3) =~= "://"@);
    assert(occurs_at(text, "://"@, n));
    assert(text[0] == scheme[0]);
    assert forall|i: int| 0 <= i < n implies of_a_scheme(#[trigger] text[i]) by {
        assert(text[i] == scheme[i]);
    }
    assert(has_scheme(text));
    let about = "about:"@ + rest;
    assert(about.subrange(0, 6) =~= "about:"@);
    let data = "data:"@ + rest;
    assert(data.subrange(0, 5) =~= "data:"@);
}

/// Four numbers with dots are an address of a machine, and any other row of
/// numbers is something to search for.
pub proof fn law_four_numbers_are_a_place(
    a: Seq<char>,
    b: Seq<char>,
    c: Seq<char>,
    d: Seq<char>,
)
    requires
        is_octet(a) && is_octet(b) && is_octet(c) && is_octet(d),
    ensures
        is_place(a + seq!['.'] + b + seq!['.'] + c + seq!['.'] + d),
        !is_place(a + seq!['.'] + b),
        !is_place(a),
{
    let dot = seq!['.'];
    let four = a + dot + b + dot + c + dot + d;
    let two = a + dot + b;
    lemma_no_dot(a);
    lemma_no_dot(b);
    lemma_no_dot(c);
    lemma_no_dot(d);
    assert(four =~= a + dot + (b + dot + (c + dot + d)));
    lemma_first_piece(a, b + dot + (c + dot + d), '.');
    lemma_first_piece(b, c + dot + d, '.');
    lemma_first_piece(c, d, '.');
    lemma_first_piece(d, Seq::empty(), '.');
    assert(pieces(four, '.') =~= seq![a, b, c, d]);
    lemma_first_piece(a, b, '.');
    lemma_first_piece(b, Seq::empty(), '.');
    assert(pieces(two, '.') =~= seq![a, b]);
    lemma_first_piece(a, Seq::empty(), '.');
    assert(pieces(a, '.') =~= seq![a]);
    lemma_numeric(two, seq![a, b], a);
    lemma_numeric(a, seq![a], a);
    assert forall|i: int| 0 <= i < four.len() implies is_digit(#[trigger] four[i]) || four[i]
        == '.' by {
        lemma_in_address(a, b, c, d, i);
    }
    assert forall|i: int| 0 <= i < two.len() implies is_digit(#[trigger] two[i]) || two[i]
        == '.' by {
        if i < a.len() {
            assert(two[i] == a[i]);
        } else if i > a.len() {
            assert(two[i] == b[i - a.len() - 1]);
        }
    }
    lemma_numbers_are_a_host(four);
    lemma_numbers_are_a_host(two);
    lemma_numbers_are_a_host(a);
    assert(seq![a, b, c, d][0] == a && seq![a, b, c, d][1] == b && seq![a, b, c, d][2] == c
        && seq![a, b, c, d][3] == d);
    assert(is_number_label(a) && is_number_label(b) && is_number_label(c) && is_number_label(d));
}

/// A text of numbers is not this machine unless it has four of them.
proof fn lemma_numeric(text: Seq<char>, labels: Seq<Seq<char>>, octet: Seq<char>)
    requires
        is_octet(octet),
        pieces(text, '.') == labels,
        labels.len() != 4,
        text.len() > 0,
        is_digit(text[text.len() - 1]) && is_digit(text[0]),
    ensures
        !is_local(text),
{
    reveal_strlit("localhost");
    let low = lower_all(text);
    let n = text.len() as int;
    assert(low[n - 1] == lower(text[n - 1]));
    if ends(low, "localhost"@) {
        assert(low.subrange(n - 9, n)[8] == low[n - 1]);
        assert("localhost"@[8] == 't');
    }
    law_this_machine_has_its_names(text, octet, octet, octet);
}

proof fn lemma_numbers_are_a_host(text: Seq<char>)
    requires
        text.len() > 0,
        forall|i: int| 0 <= i < text.len() ==> is_digit(#[trigger] text[i]) || text[i] == '.',
    ensures
        !says_what_it_is(text),
        host_and_port(text) == (text, false),
        text[0] != '/',
        !has_gap(text),
{
    assert(is_digit(text[0]) || text[0] == '.');
    assert forall|i: int| 0 <= i < text.len() implies !ends_authority(#[trigger] text[i]) && text[i]
        != ':' by {}
    lemma_bare_host(text, Seq::empty());
    assert(text + Seq::<char>::empty() =~= text);
    if has_gap(text) {
        let i = choose|i: int| 0 <= i < text.len() && is_space(#[trigger] text[i]);
        assert(is_digit(text[i]) || text[i] == '.');
    }
}

}
