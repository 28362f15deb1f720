//! The JSON value that a text is.
//!
//! Lists and objects may stand in each other [`MAX_DEPTH`] deep. A number is the
//! double nearest to it, and one past the largest double is infinite. Half of a
//! surrogate pair on its own is the replacement character.
use vstd::prelude::*;

use crate::double::{decimal_double, lemma_far, read_decimal, Double};
use crate::json::{lemma_list_view, lemma_record_view, Json, Value};
use crate::strings::{
    chars_of, digits_value, is_digit, is_digit_char, is_hex, is_hex_char, occurs, occurs_at,
    string_of,
};

verus! {

/// How deep lists and objects may stand in each other.
pub const MAX_DEPTH: u32 = 128;

/// `std::char::from_u32`: the character of a code point, when it is one; a
/// surrogate and a number past the last code point are none.
pub assume_specification[ std::char::from_u32 ](i: u32) -> (r: Option<char>)
    ensures
        r == (if i <= 0xd7ff || 0xe000 <= i <= 0x10ffff {
            Some(i as char)
        } else {
            None
        }),
;

// ---- spaces ----

/// A space of JSON's.
pub open spec fn is_json_space(c: char) -> bool {
    c == ' ' || c == '\t' || c == '\n' || c == '\r'
}

/// Where the spaces at `at` end.
pub open spec fn skip_space(s: Seq<char>, at: int) -> int
    decreases s.len() - at,
{
    if 0 <= at < s.len() && is_json_space(s[at]) {
        skip_space(s, at + 1)
    } else {
        at
    }
}

/// Spaces end no earlier than they start, and inside the text.
pub proof fn lemma_skip_space(s: Seq<char>, at: int)
    requires
        0 <= at <= s.len(),
    ensures
        at <= skip_space(s, at) <= s.len(),
        skip_space(s, at) < s.len() ==> !is_json_space(s[skip_space(s, at)]),
    decreases s.len() - at,
{
    if at < s.len() && is_json_space(s[at]) {
        lemma_skip_space(s, at + 1);
    }
}

/// Where the spaces at `at` end.
fn after_space(s: &[char], at: usize) -> (r: usize)
    requires
        at <= s@.len(),
    ensures
        r == skip_space(s@, at as int),
        at <= r <= s@.len(),
{
    let mut i: usize = at;
    while i < s.len() && (s[i] == ' ' || s[i] == '\t' || s[i] == '\n' || s[i] == '\r')
        invariant
            at <= i <= s@.len(),
            skip_space(s@, at as int) == skip_space(s@, i as int),
        decreases s@.len() - i,
    {
        i += 1;
    }
    i
}

// ---- strings ----

/// The value of a hexadecimal digit.
pub open spec fn hex_value(c: char) -> nat {
    if is_digit(c) {
        (c as nat - 48) as nat
    } else if 'a' <= c <= 'f' {
        (c as nat - 87) as nat
    } else {
        (c as nat - 55) as nat
    }
}

/// The number that four hexadecimal digits at `at` are.
pub open spec fn hex4(s: Seq<char>, at: int) -> Option<nat> {
    if 0 <= at && at + 4 <= s.len() && is_hex(s[at]) && is_hex(s[at + 1]) && is_hex(s[at + 2])
        && is_hex(s[at + 3]) {
        Some(
            hex_value(s[at]) * 4096 + hex_value(s[at + 1]) * 256 + hex_value(s[at + 2]) * 16
                + hex_value(s[at + 3]),
        )
    } else {
        None
    }
}

/// The low half of a surrogate pair, escaped at `at`.
pub open spec fn low_half(s: Seq<char>, at: int) -> Option<nat> {
    if 0 <= at && at + 2 <= s.len() && s[at] == '\\' && s[at + 1] == 'u' {
        match hex4(s, at + 2) {
            Some(n) => if 0xdc00 <= n <= 0xdfff {
                Some(n)
            } else {
                None
            },
            None => None,
        }
    } else {
        None
    }
}

/// The character that an escape is, `at` being after its backslash, and where
/// the escape ends.
pub open spec fn read_escape(s: Seq<char>, at: int) -> Option<(char, int)> {
    if !(0 <= at < s.len()) {
        None
    } else if s[at] == '"' || s[at] == '\\' || s[at] == '/' {
        Some((s[at], at + 1))
    } else if s[at] == 'b' {
        Some(('\u{8}', at + 1))
    } else if s[at] == 'f' {
        Some(('\u{c}', at + 1))
    } else if s[at] == 'n' {
        Some(('\n', at + 1))
    } else if s[at] == 'r' {
        Some(('\r', at + 1))
    } else if s[at] == 't' {
        Some(('\t', at + 1))
    } else if s[at] == 'u' {
        match hex4(s, at + 1) {
            Some(n) => if n <= 0xd7ff || 0xe000 <= n {
                Some((n as char, at + 5))
            } else if n <= 0xdbff {
                match low_half(s, at + 5) {
                    Some(low) => Some(
                        ((0x10000 + (n - 0xd800) * 1024 + (low - 0xdc00)) as char, at + 11),
                    ),
                    None => Some(('\u{fffd}', at + 5)),
                }
            } else {
                Some(('\u{fffd}', at + 5))
            },
            None => None,
        }
    } else {
        None
    }
}

/// `r` with `c` before its text.
pub open spec fn after_char(c: char, r: Option<(Seq<char>, int)>) -> Option<(Seq<char>, int)> {
    match r {
        Some((rest, end)) => Some((seq![c] + rest, end)),
        None => None,
    }
}

/// The text of a string, `at` being after its opening quote, and where the
/// string ends.
pub open spec fn read_string(s: Seq<char>, at: int) -> Option<(Seq<char>, int)>
    decreases s.len() - at,
{
    if !(0 <= at < s.len()) {
        None
    } else if s[at] == '"' {
        Some((Seq::empty(), at + 1))
    } else if s[at] == '\\' {
        match read_escape(s, at + 1) {
            Some((c, next)) => if at < next <= s.len() {
                after_char(c, read_string(s, next))
            } else {
                None
            },
            None => None,
        }
    } else if s[at] <= '\u{1f}' {
        None
    } else {
        after_char(s[at], read_string(s, at + 1))
    }
}

/// The value of a hexadecimal digit.
fn hex_value_of(c: char) -> (n: u32)
    requires
        is_hex(c),
    ensures
        n == hex_value(c),
        n < 16,
{
    if is_digit_char(c) {
        c as u32 - 48
    } else if 'a' <= c && c <= 'f' {
        c as u32 - 87
    } else {
        c as u32 - 55
    }
}

/// The number that four hexadecimal digits at `at` are.
fn hex4_at(s: &[char], at: usize) -> (r: Option<u32>)
    ensures
        match r {
            Some(n) => hex4(s@, at as int) == Some(n as nat) && n <= 0xffff,
            None => hex4(s@, at as int) is None,
        },
{
    if s.len() < 4 || s.len() - 4 < at {
        return None;
    }
    if !is_hex_char(s[at]) || !is_hex_char(s[at + 1]) || !is_hex_char(s[at + 2]) || !is_hex_char(
        s[at + 3],
    ) {
        return None;
    }
    Some(
        hex_value_of(s[at]) * 4096 + hex_value_of(s[at + 1]) * 256 + hex_value_of(s[at + 2]) * 16
            + hex_value_of(s[at + 3]),
    )
}

/// The low half of a surrogate pair, escaped at `at`.
fn low_half_at(s: &[char], at: usize) -> (r: Option<u32>)
    requires
        at <= s@.len(),
    ensures
        match r {
            Some(n) => low_half(s@, at as int) == Some(n as nat) && 0xdc00 <= n <= 0xdfff,
            None => low_half(s@, at as int) is None,
        },
{
    if s.len() - at < 2 || s[at] != '\\' || s[at + 1] != 'u' {
        return None;
    }
    match hex4_at(s, at + 2) {
        Some(n) => if 0xdc00 <= n && n <= 0xdfff {
            Some(n)
        } else {
            None
        },
        None => None,
    }
}

/// The character that an escape is, and where the escape ends.
fn escape_at(s: &[char], at: usize) -> (r: Option<(char, usize)>)
    requires
        at <= s@.len(),
    ensures
        match r {
            Some((c, next)) => read_escape(s@, at as int) == Some((c, next as int)) && at < next
                <= s@.len(),
            None => read_escape(s@, at as int) is None,
        },
{
    if at >= s.len() {
        return None;
    }
    let c = s[at];
    if c == '"' || c == '\\' || c == '/' {
        Some((c, at + 1))
    } else if c == 'b' {
        Some(('\u{8}', at + 1))
    } else if c == 'f' {
        Some(('\u{c}', at + 1))
    } else if c == 'n' {
        Some(('\n', at + 1))
    } else if c == 'r' {
        Some(('\r', at + 1))
    } else if c == 't' {
        Some(('\t', at + 1))
    } else if c == 'u' {
        match hex4_at(s, at + 1) {
            Some(n) => {
                match std::char::from_u32(n) {
                    Some(c) => Some((c, at + 5)),
                    None => {
                        if n <= 0xdbff {
                            match low_half_at(s, at + 5) {
                                Some(low) => {
                                    let code: u32 = 0x10000 + (n - 0xd800) * 1024 + (low - 0xdc00);
                                    match std::char::from_u32(code) {
                                        Some(c) => Some((c, at + 11)),
                                        None => None,
                                    }
                                },
                                None => Some(('\u{fffd}', at + 5)),
                            }
                        } else {
                            Some(('\u{fffd}', at + 5))
                        }
                    },
                }
            },
            None => None,
        }
    } else {
        None
    }
}

/// `r` with `before` before its text.
pub open spec fn after_text(before: Seq<char>, r: Option<(Seq<char>, int)>) -> Option<
    (Seq<char>, int),
> {
    match r {
        Some((rest, end)) => Some((before + rest, end)),
        None => None,
    }
}

/// The text of a string, and where the string ends.
fn string_at(s: &[char], at: usize) -> (r: Option<(String, usize)>)
    requires
        at <= s@.len(),
    ensures
        match r {
            Some((t, next)) => read_string(s@, at as int) == Some((t@, next as int)) && at < next
                <= s@.len(),
            None => read_string(s@, at as int) is None,
        },
{
    let mut text: Vec<char> = Vec::new();
    let mut i: usize = at;
    proof {
        let r = read_string(s@, at as int);
        if r is Some {
            assert(Seq::<char>::empty() + r->Some_0.0 =~= r->Some_0.0);
        }
    }
    while i < s.len()
        invariant
            at <= i <= s@.len(),
            read_string(s@, at as int) == after_text(text@, read_string(s@, i as int)),
        decreases s@.len() - i,
    {
        let c = s[i];
        let ghost now = text@;
        if c == '"' {
            proof {
                assert(now + Seq::<char>::empty() =~= now);
            }
            return Some((string_of(text.as_slice()), i + 1));
        }
        if c == '\\' {
            match escape_at(s, i + 1) {
                Some((c, next)) => {
                    text.push(c);
                    proof {
                        let r = read_string(s@, next as int);
                        if r is Some {
                            assert(now + (seq![c] + r->Some_0.0) =~= text@ + r->Some_0.0);
                        }
                    }
                    i = next;
                },
                None => return None,
            }
        } else if c <= '\u{1f}' {
            return None;
        } else {
            text.push(c);
            proof {
                let r = read_string(s@, i + 1);
                if r is Some {
                    assert(now + (seq![c] + r->Some_0.0) =~= text@ + r->Some_0.0);
                }
            }
            i += 1;
        }
    }
    None
}

// ---- numbers ----

/// Where the digits at `at` end.
pub open spec fn digits_end(s: Seq<char>, at: int) -> int
    decreases s.len() - at,
{
    if 0 <= at < s.len() && is_digit(s[at]) {
        digits_end(s, at + 1)
    } else {
        at
    }
}

/// Digits end no earlier than they start, and inside the text.
pub proof fn lemma_digits_end(s: Seq<char>, at: int)
    requires
        0 <= at <= s.len(),
    ensures
        at <= digits_end(s, at) <= s.len(),
        forall|i: int| at <= i < digits_end(s, at) ==> is_digit(#[trigger] s[i]),
        digits_end(s, at) < s.len() ==> !is_digit(s[digits_end(s, at)]),
    decreases s.len() - at,
{
    if at < s.len() && is_digit(s[at]) {
        lemma_digits_end(s, at + 1);
    }
}

/// Where the digits at `at` end.
fn after_digits(s: &[char], at: usize) -> (r: usize)
    requires
        at <= s@.len(),
    ensures
        r == digits_end(s@, at as int),
        at <= r <= s@.len(),
{
    let mut i: usize = at;
    while i < s.len() && is_digit_char(s[i])
        invariant
            at <= i <= s@.len(),
            digits_end(s@, at as int) == digits_end(s@, i as int),
        decreases s@.len() - i,
    {
        i += 1;
    }
    i
}

/// The exponent written at `at`, where the exponent of a number may stand,
/// and where it ends: none is zero.
pub open spec fn read_exponent(s: Seq<char>, at: int) -> Option<(int, int)> {
    if 0 <= at < s.len() && (s[at] == 'e' || s[at] == 'E') {
        let signed = at + 1 < s.len() && (s[at + 1] == '+' || s[at + 1] == '-');
        let start = if signed {
            at + 2
        } else {
            at + 1
        };
        let end = digits_end(s, start);
        let n = digits_value(s.subrange(start, end));
        if end == start {
            None
        } else if signed && s[at + 1] == '-' {
            Some((-(n as int), end))
        } else {
            Some((n as int, end))
        }
    } else {
        Some((0, at))
    }
}

/// The number at `at`, and where it ends.
pub open spec fn read_number(s: Seq<char>, at: int) -> Option<(Double, int)> {
    let negative = s[at] == '-';
    let start = if negative {
        at + 1
    } else {
        at
    };
    let whole = digits_end(s, start);
    let pointed = whole < s.len() && s[whole] == '.';
    let end = if pointed {
        digits_end(s, whole + 1)
    } else {
        whole
    };
    if whole == start || (s[start] == '0' && whole > start + 1) || (pointed && end == whole + 1) {
        None
    } else {
        let fraction = if pointed {
            s.subrange(whole + 1, end)
        } else {
            Seq::empty()
        };
        match read_exponent(s, end) {
            Some((e, next)) => Some(
                (
                    decimal_double(
                        negative,
                        s.subrange(start, whole) + fraction,
                        fraction.len() - e,
                    ),
                    next,
                ),
            ),
            None => None,
        }
    }
}

/// Past this an exponent is all that counts.
const FAR: i128 = 0x1000_0000_0000_0000_0000_0000;

/// The exponent written at `at`, or one that is as far from zero as matters,
/// and where it ends.
fn exponent_at(s: &[char], at: usize) -> (r: Option<(i128, usize)>)
    requires
        at <= s@.len(),
    ensures
        match r {
            Some((e, next)) => read_exponent(s@, at as int) matches Some((f, end)) && end == next
                && at <= next <= s@.len() && -FAR <= e <= FAR && (e == f || (e == FAR && f > FAR)
                || (e == -FAR && f < -FAR)),
            None => read_exponent(s@, at as int) is None,
        },
{
    if at >= s.len() || (s[at] != 'e' && s[at] != 'E') {
        return Some((0, at));
    }
    let signed = s.len() - at > 1 && (s[at + 1] == '+' || s[at + 1] == '-');
    let start: usize = if signed {
        at + 2
    } else {
        at + 1
    };
    let end = after_digits(s, start);
    if end == start {
        return None;
    }
    let ghost d = s@.subrange(start as int, end as int);
    let mut n: i128 = 0;
    let mut i: usize = start;
    proof {
        lemma_digits_end(s@, start as int);
        assert(d.take(0) =~= Seq::<char>::empty());
    }
    while i < end
        invariant
            start <= i <= end <= s@.len(),
            d == s@.subrange(start as int, end as int),
            forall|k: int| start <= k < end ==> is_digit(#[trigger] s@[k]),
            0 <= n <= FAR,
            n == digits_value(d.take(i - start)) || (n == FAR && digits_value(d.take(i - start))
                > FAR),
        decreases end - i,
    {
        proof {
            assert(is_digit(s@[i as int]));
            assert(d[i - start] == s@[i as int]);
            assert(d.take(i + 1 - start).drop_last() =~= d.take(i - start));
        }
        n = n * 10 + (s[i] as u32 - 48) as i128;
        if n > FAR {
            n = FAR;
        }
        i += 1;
    }
    proof {
        assert(d.take(end - start) =~= d);
    }
    if signed && s[at + 1] == '-' {
        Some((-n, end))
    } else {
        Some((n, end))
    }
}

/// The number at `at`, and where it ends.
fn number_at(s: &[char], at: usize) -> (r: Option<(Double, usize)>)
    requires
        at < s@.len(),
    ensures
        match r {
            Some((n, next)) => read_number(s@, at as int) == Some((n, next as int)) && at < next
                <= s@.len(),
            None => read_number(s@, at as int) is None,
        },
{
    let negative = s[at] == '-';
    let start: usize = if negative {
        at + 1
    } else {
        at
    };
    let whole = after_digits(s, start);
    proof {
        lemma_digits_end(s@, start as int);
    }
    if whole == start || (s[start] == '0' && whole > start + 1) {
        return None;
    }
    let pointed = whole < s.len() && s[whole] == '.';
    let mut d: Vec<char> = Vec::new();
    let mut i: usize = start;
    let ghost w = s@.subrange(start as int, whole as int);
    while i < whole
        invariant
            start <= i <= whole <= s@.len(),
            d@ == s@.subrange(start as int, i as int),
        decreases whole - i,
    {
        d.push(s[i]);
        i += 1;
        proof {
            assert(d@ =~= s@.subrange(start as int, i as int));
        }
    }
    let mut end: usize = whole;
    let ghost mut fraction: Seq<char> = Seq::empty();
    if pointed {
        end = after_digits(s, whole + 1);
        proof {
            lemma_digits_end(s@, whole + 1);
        }
        if end == whole + 1 {
            return None;
        }
        let mut j: usize = whole + 1;
        proof {
            assert(d@ =~= w + s@.subrange(whole + 1, whole + 1));
        }
        while j < end
            invariant
                whole + 1 <= j <= end <= s@.len(),
                d@ == w + s@.subrange(whole + 1, j as int),
            decreases end - j,
        {
            d.push(s[j]);
            j += 1;
            proof {
                assert(d@ =~= w + s@.subrange(whole + 1, j as int));
            }
        }
        proof {
            fraction = s@.subrange(whole + 1, end as int);
        }
    }
    proof {
        assert(d@ =~= w + fraction);
        assert forall|k: int| 0 <= k < d@.len() implies is_digit(#[trigger] d@[k]) by {
            if k < w.len() {
                assert(is_digit(s@[start + k]));
            } else {
                assert(is_digit(s@[whole + 1 + k - w.len()]));
            }
        }
    }
    let after: i128 = if pointed {
        (end - whole - 1) as i128
    } else {
        0
    };
    match exponent_at(s, end) {
        Some((e, next)) => {
            proof {
                let (f, _) = read_exponent(s@, end as int)->Some_0;
                if e != f {
                    lemma_far(negative, d@, after - e, after - f);
                }
            }
            Some((read_decimal(negative, d.as_slice(), after - e), next))
        },
        None => None,
    }
}

// ---- values ----

/// `r` with `v` before its items.
pub open spec fn after_item(v: Value, r: Option<(Seq<Value>, int)>) -> Option<(Seq<Value>, int)> {
    match r {
        Some((rest, end)) => Some((seq![v] + rest, end)),
        None => None,
    }
}

/// `r` with a field before its fields.
pub open spec fn after_field(
    f: (Seq<char>, Value),
    r: Option<(Seq<(Seq<char>, Value)>, int)>,
) -> Option<(Seq<(Seq<char>, Value)>, int)> {
    match r {
        Some((rest, end)) => Some((seq![f] + rest, end)),
        None => None,
    }
}

/// The value at `at`, after any spaces, and where it ends: `depth` is how deep
/// lists and objects may still stand in it.
pub open spec fn read_value(s: Seq<char>, at: int, depth: nat) -> Option<(Value, int)>
    decreases depth, s.len() - at,
{
    let from = skip_space(s, at);
    if !(0 <= at <= from < s.len()) {
        None
    } else if s[from] == 'n' {
        if occurs_at(s, "null"@, from) {
            Some((Value::Null, from + 4))
        } else {
            None
        }
    } else if s[from] == 't' {
        if occurs_at(s, "true"@, from) {
            Some((Value::Bool(true), from + 4))
        } else {
            None
        }
    } else if s[from] == 'f' {
        if occurs_at(s, "false"@, from) {
            Some((Value::Bool(false), from + 5))
        } else {
            None
        }
    } else if s[from] == '"' {
        match read_string(s, from + 1) {
            Some((t, end)) => Some((Value::Text(t), end)),
            None => None,
        }
    } else if s[from] == '[' {
        let first = skip_space(s, from + 1);
        if depth == 0 {
            None
        } else if first < s.len() && s[first] == ']' {
            Some((Value::List(Seq::empty()), first + 1))
        } else {
            match read_items(s, from + 1, depth) {
                Some((items, end)) => Some((Value::List(items), end)),
                None => None,
            }
        }
    } else if s[from] == '{' {
        let first = skip_space(s, from + 1);
        if depth == 0 {
            None
        } else if first < s.len() && s[first] == '}' {
            Some((Value::Record(Seq::empty()), first + 1))
        } else {
            match read_fields(s, from + 1, depth) {
                Some((fields, end)) => Some((Value::Record(fields), end)),
                None => None,
            }
        }
    } else if s[from] == '-' || is_digit(s[from]) {
        match read_number(s, from) {
            Some((n, end)) => Some((Value::Number(n), end)),
            None => None,
        }
    } else {
        None
    }
}

/// The items of a list from `at`, where an item stands, and where the list
/// ends.
pub open spec fn read_items(s: Seq<char>, at: int, depth: nat) -> Option<(Seq<Value>, int)>
    decreases depth, s.len() - at,
{
    if depth == 0 || !(0 <= at <= s.len()) {
        None
    } else {
        match read_value(s, at, (depth - 1) as nat) {
            Some((v, end)) => {
                let next = skip_space(s, end);
                if !(at < end <= next < s.len()) {
                    None
                } else if s[next] == ']' {
                    Some((seq![v], next + 1))
                } else if s[next] == ',' {
                    after_item(v, read_items(s, next + 1, depth))
                } else {
                    None
                }
            },
            None => None,
        }
    }
}

/// The fields of an object from `at`, where a field stands, and where the
/// object ends.
pub open spec fn read_fields(s: Seq<char>, at: int, depth: nat) -> Option<
    (Seq<(Seq<char>, Value)>, int),
>
    decreases depth, s.len() - at,
{
    let name = skip_space(s, at);
    if depth == 0 || !(0 <= at <= name < s.len()) || s[name] != '"' {
        None
    } else {
        match read_string(s, name + 1) {
            Some((key, end)) => {
                let colon = skip_space(s, end);
                if !(name < end <= colon < s.len()) || s[colon] != ':' {
                    None
                } else {
                    match read_value(s, colon + 1, (depth - 1) as nat) {
                        Some((v, end)) => {
                            let next = skip_space(s, end);
                            if !(colon < end <= next < s.len()) {
                                None
                            } else if s[next] == '}' {
                                Some((seq![(key, v)], next + 1))
                            } else if s[next] == ',' {
                                after_field((key, v), read_fields(s, next + 1, depth))
                            } else {
                                None
                            }
                        },
                        None => None,
                    }
                }
            },
            None => None,
        }
    }
}

/// The value that a text is: the value and nothing but spaces around it.
pub open spec fn parsed(s: Seq<char>) -> Option<Value> {
    match read_value(s, 0, MAX_DEPTH as nat) {
        Some((v, end)) => if skip_space(s, end) == s.len() {
            Some(v)
        } else {
            None
        },
        None => None,
    }
}

/// `r` with `before` before its items.
pub open spec fn after_items(before: Seq<Value>, r: Option<(Seq<Value>, int)>) -> Option<
    (Seq<Value>, int),
> {
    match r {
        Some((rest, end)) => Some((before + rest, end)),
        None => None,
    }
}

/// `r` with `before` before its fields.
pub open spec fn after_fields(
    before: Seq<(Seq<char>, Value)>,
    r: Option<(Seq<(Seq<char>, Value)>, int)>,
) -> Option<(Seq<(Seq<char>, Value)>, int)> {
    match r {
        Some((rest, end)) => Some((before + rest, end)),
        None => None,
    }
}

/// Whether `word` stands at `at`.
fn word_at(s: &[char], word: &str, at: usize) -> (r: bool)
    ensures
        r == occurs_at(s@, word@, at as int),
{
    let word = chars_of(word);
    occurs(s, word.as_slice(), at)
}

/// The value at `at`, and where it ends.
fn value_at(s: &[char], at: usize, depth: u32) -> (r: Option<(Json, usize)>)
    requires
        at <= s@.len(),
    ensures
        match r {
            Some((j, next)) => read_value(s@, at as int, depth as nat) == Some((j@, next as int))
                && at < next <= s@.len(),
            None => read_value(s@, at as int, depth as nat) is None,
        },
    decreases depth, 1int,
{
    let from = after_space(s, at);
    proof {
        reveal_strlit("null");
        reveal_strlit("true");
        reveal_strlit("false");
    }
    if from >= s.len() {
        return None;
    }
    let c = s[from];
    if c == 'n' {
        if word_at(s, "null", from) {
            Some((Json::Null, from + 4))
        } else {
            None
        }
    } else if c == 't' {
        if word_at(s, "true", from) {
            Some((Json::Bool(true), from + 4))
        } else {
            None
        }
    } else if c == 'f' {
        if word_at(s, "false", from) {
            Some((Json::Bool(false), from + 5))
        } else {
            None
        }
    } else if c == '"' {
        match string_at(s, from + 1) {
            Some((t, end)) => Some((Json::String(t), end)),
            None => None,
        }
    } else if c == '[' {
        let first = after_space(s, from + 1);
        if depth == 0 {
            None
        } else if first < s.len() && s[first] == ']' {
            let j = Json::Array(Vec::new());
            proof {
                assert(j@->List_0 =~= Seq::empty());
            }
            Some((j, first + 1))
        } else {
            items_at(s, from + 1, depth)
        }
    } else if c == '{' {
        let first = after_space(s, from + 1);
        if depth == 0 {
            None
        } else if first < s.len() && s[first] == '}' {
            Some((Json::empty(), first + 1))
        } else {
            fields_at(s, from + 1, depth)
        }
    } else if c == '-' || is_digit_char(c) {
        match number_at(s, from) {
            Some((n, end)) => Some((Json::Number(n), end)),
            None => None,
        }
    } else {
        None
    }
}

/// The values of some items.
pub open spec fn views(items: Seq<Json>) -> Seq<Value> {
    items.map_values(|j: Json| j@)
}

/// The names and values of some fields.
pub open spec fn field_views(fields: Seq<(String, Json)>) -> Seq<(Seq<char>, Value)> {
    fields.map_values(|f: (String, Json)| (f.0@, f.1@))
}

/// The list whose items stand from `at`, and where it ends.
fn items_at(s: &[char], at: usize, depth: u32) -> (r: Option<(Json, usize)>)
    requires
        at <= s@.len(),
        depth > 0,
    ensures
        match r {
            Some((j, next)) => j@ is List && read_items(s@, at as int, depth as nat) == Some(
                (j@->List_0, next as int),
            ) && at < next <= s@.len(),
            None => read_items(s@, at as int, depth as nat) is None,
        },
    decreases depth, 0int,
{
    let mut items: Vec<Json> = Vec::new();
    let mut i: usize = at;
    proof {
        let r = read_items(s@, at as int, depth as nat);
        if r is Some {
            assert(views(items@) + r->Some_0.0 =~= r->Some_0.0);
        }
    }
    loop
        invariant
            at <= i <= s@.len(),
            depth > 0,
            read_items(s@, at as int, depth as nat) == after_items(
                views(items@),
                read_items(s@, i as int, depth as nat),
            ),
        decreases s@.len() - i,
    {
        let ghost now = views(items@);
        match value_at(s, i, depth - 1) {
            Some((v, end)) => {
                let next = after_space(s, end);
                let ghost value = v@;
                items.push(v);
                proof {
                    assert(views(items@) =~= now + seq![value]);
                }
                if next >= s.len() {
                    return None;
                }
                if s[next] == ']' {
                    let j = Json::Array(items);
                    proof {
                        lemma_list_view(items);
                        assert(j@->List_0 =~= views(items@));
                    }
                    return Some((j, next + 1));
                }
                if s[next] != ',' {
                    return None;
                }
                proof {
                    let r = read_items(s@, next + 1, depth as nat);
                    if r is Some {
                        assert(now + (seq![value] + r->Some_0.0) =~= views(items@) + r->Some_0.0);
                    }
                }
                i = next + 1;
            },
            None => return None,
        }
    }
}

/// The object whose fields stand from `at`, and where it ends.
fn fields_at(s: &[char], at: usize, depth: u32) -> (r: Option<(Json, usize)>)
    requires
        at <= s@.len(),
        depth > 0,
    ensures
        match r {
            Some((j, next)) => j@ is Record && read_fields(s@, at as int, depth as nat) == Some(
                (j@->Record_0, next as int),
            ) && at < next <= s@.len(),
            None => read_fields(s@, at as int, depth as nat) is None,
        },
    decreases depth, 0int,
{
    let mut fields: Vec<(String, Json)> = Vec::new();
    let mut i: usize = at;
    proof {
        let r = read_fields(s@, at as int, depth as nat);
        if r is Some {
            assert(field_views(fields@) + r->Some_0.0 =~= r->Some_0.0);
        }
    }
    loop
        invariant
            at <= i <= s@.len(),
            depth > 0,
            read_fields(s@, at as int, depth as nat) == after_fields(
                field_views(fields@),
                read_fields(s@, i as int, depth as nat),
            ),
        decreases s@.len() - i,
    {
        let ghost now = field_views(fields@);
        let name = after_space(s, i);
        if name >= s.len() || s[name] != '"' {
            return None;
        }
        match string_at(s, name + 1) {
            Some((key, end)) => {
                let colon = after_space(s, end);
                if colon >= s.len() || s[colon] != ':' {
                    return None;
                }
                match value_at(s, colon + 1, depth - 1) {
                    Some((v, end)) => {
                        let next = after_space(s, end);
                        let ghost f = (key@, v@);
                        fields.push((key, v));
                        proof {
                            assert(field_views(fields@) =~= now + seq![f]);
                        }
                        if next >= s.len() {
                            return None;
                        }
                        if s[next] == '}' {
                            let j = Json::Object(fields);
                            proof {
                                lemma_record_view(fields);
                                assert(j@->Record_0 =~= field_views(fields@));
                            }
                            return Some((j, next + 1));
                        }
                        if s[next] != ',' {
                            return None;
                        }
                        proof {
                            let r = read_fields(s@, next + 1, depth as nat);
                            if r is Some {
                                assert(now + (seq![f] + r->Some_0.0) =~= field_views(fields@)
                                    + r->Some_0.0);
                            }
                        }
                        i = next + 1;
                    },
                    None => return None,
                }
            },
            None => return None,
        }
    }
}

impl Json {
    /// The value that a text is, when it is one.
    pub fn parse(text: &str) -> (r: Option<Json>)
        ensures
            match r {
                Some(j) => parsed(text@) == Some(j@),
                None => parsed(text@) is None,
            },
    {
        let s = chars_of(text);
        match value_at(s.as_slice(), 0, MAX_DEPTH) {
            Some((j, end)) => if after_space(s.as_slice(), end) == s.len() {
                Some(j)
            } else {
                None
            },
            None => None,
        }
    }
}

// ---- laws of what is read ----

/// What an escape stands for: itself for the quote, the backslash and the slash, a
/// control character for its letter, and for four hexadecimal digits the character
/// of that number.
pub proof fn law_an_escape_is_its_character(s: Seq<char>, at: int, n: nat, c: char)
    requires
        0 <= at < s.len(),
    ensures
        s[at] == '"' || s[at] == '\\' || s[at] == '/' ==> read_escape(s, at) == Some(
            (s[at], at + 1),
        ),
        s[at] == 'n' ==> read_escape(s, at) == Some(('\n', at + 1)),
        s[at] == 'r' ==> read_escape(s, at) == Some(('\r', at + 1)),
        s[at] == 't' ==> read_escape(s, at) == Some(('\t', at + 1)),
        s[at] == 'b' ==> read_escape(s, at) == Some(('\u{8}', at + 1)),
        s[at] == 'f' ==> read_escape(s, at) == Some(('\u{c}', at + 1)),
        s[at] == 'u' && hex4(s, at + 1) == Some(n) && (n < 0xd800 || 0xdfff < n) ==> read_escape(
            s,
            at,
        ) == Some((n as char, at + 5)),
        c as int >= 0x10000 && s[at] == 'u' && hex4(s, at + 1) == Some(
            (0xd800 + (c as int - 0x10000) / 1024) as nat,
        ) && low_half(s, at + 5) == Some((0xdc00 + (c as int - 0x10000) % 1024) as nat)
            ==> read_escape(s, at) == Some((c, at + 11)),
{
}

/// Four hexadecimal digits are the number that they are.
pub proof fn law_four_digits_are_a_number(s: Seq<char>, at: int)
    ensures
        hex4(s, at) matches Some(n) ==> n < 65536 && at + 4 <= s.len() && hex_value(s[at]) == n
            / 4096 && hex_value(s[at + 1]) == n / 256 % 16 && hex_value(s[at + 2]) == n / 16 % 16
            && hex_value(s[at + 3]) == n % 16,
        hex_value('0') == 0 && hex_value('9') == 9 && hex_value('a') == 10 && hex_value('f') == 15
            && hex_value('A') == 10 && hex_value('F') == 15,
{
    if hex4(s, at) is Some {
        lemma_four_nibbles(
            hex_value(s[at]),
            hex_value(s[at + 1]),
            hex_value(s[at + 2]),
            hex_value(s[at + 3]),
        );
    }
}

proof fn lemma_four_nibbles(a: nat, b: nat, c: nat, d: nat)
    requires
        a < 16 && b < 16 && c < 16 && d < 16,
    ensures
        ({
            let n = a * 4096 + b * 256 + c * 16 + d;
            n < 65536 && n / 4096 == a && n / 256 % 16 == b && n / 16 % 16 == c && n % 16 == d
        }),
{
    let n = a * 4096 + b * 256 + c * 16 + d;
    assert(n / 4096 == a);
    assert(n / 256 == 16 * a + b);
    assert((16 * a + b) % 16 == b);
    assert(n / 16 == 256 * a + 16 * b + c);
    assert((256 * a + 16 * b + c) % 16 == c);
}

/// Text ends at its quote; a character in it that is no escape is itself, and one
/// that would break a line is refused.
pub proof fn law_text_ends_at_its_quote(s: Seq<char>, at: int)
    requires
        0 <= at < s.len(),
    ensures
        s[at] == '"' ==> read_string(s, at) == Some((Seq::<char>::empty(), at + 1)),
        s[at] < ' ' ==> read_string(s, at) is None,
        s[at] >= ' ' && s[at] != '"' && s[at] != '\\' ==> (read_string(s, at + 1) matches Some(
            (rest, end),
        ) ==> read_string(s, at) == Some((seq![s[at]] + rest, end))),
        read_string(s, s.len() as int) is None,
{
}

/// Blanks around a value do not matter, and anything else behind it does.
pub proof fn law_a_value_stands_alone(s: Seq<char>, v: Value, end: int)
    requires
        read_value(s, 0, MAX_DEPTH as nat) == Some((v, end)),
        0 <= end <= s.len(),
    ensures
        (forall|i: int| end <= i < s.len() ==> is_json_space(#[trigger] s[i])) ==> parsed(s)
            == Some(v),
        end < s.len() && !is_json_space(s[end]) ==> parsed(s) is None,
        is_json_space(' ') && is_json_space('\t') && is_json_space('\n') && is_json_space('\r'),
{
    if forall|i: int| end <= i < s.len() ==> is_json_space(#[trigger] s[i]) {
        lemma_all_blank(s, end);
    }
}

proof fn lemma_all_blank(s: Seq<char>, at: int)
    requires
        0 <= at <= s.len(),
        forall|i: int| at <= i < s.len() ==> is_json_space(#[trigger] s[i]),
    ensures
        skip_space(s, at) == s.len(),
    decreases s.len() - at,
{
    if at < s.len() {
        assert(is_json_space(s[at]));
        lemma_all_blank(s, at + 1);
    }
}

}
