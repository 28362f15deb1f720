//! That a JSON value written out is read back as the value it was.
use vstd::prelude::*;

use crate::double::{decimal_double, law_a_double_reads_back, pow10, Double};
use crate::json::Value;
use crate::json_parse::{
    digits_end, hex4, hex_value, is_json_space, parsed, read_escape, read_exponent, read_fields,
    read_items, read_number, read_string, read_value, skip_space, MAX_DEPTH,
};
use crate::json_text::{
    escape, escaped, hex_digit, number_digits, number_text, quoted, rendered, rendered_fields,
    rendered_items, zeros,
};
use crate::strings::{
    all_digits, decimal, digits_value, is_digit, is_hex, lemma_decimal, occurs_at,
};

verus! {

/// A value that lists and objects stand in no deeper than `depth`, with every
/// number a double.
pub open spec fn is_writable(v: Value, depth: nat) -> bool
    decreases depth,
{
    match v {
        Value::Number(n) => n.valid(),
        Value::List(items) => depth > 0 && forall|i: int|
            0 <= i < items.len() ==> is_writable(#[trigger] items[i], (depth - 1) as nat),
        Value::Record(fields) => depth > 0 && forall|i: int|
            0 <= i < fields.len() ==> is_writable((#[trigger] fields[i]).1, (depth - 1) as nat),
        _ => true,
    }
}

/// What may follow a value: the end of the text, or what separates or closes.
pub open spec fn stops(s: Seq<char>, at: int) -> bool {
    at == s.len() || (0 <= at < s.len() && (s[at] == ',' || s[at] == ']' || s[at] == '}'))
}

/// What stands somewhere in two parts stands there part by part.
proof fn lemma_parts(s: Seq<char>, a: Seq<char>, b: Seq<char>, at: int)
    requires
        occurs_at(s, a + b, at),
    ensures
        occurs_at(s, a, at),
        occurs_at(s, b, at + a.len()),
{
    let all = a + b;
    assert forall|k: int| 0 <= k < a.len() implies s[at + k] == a[k] by {
        assert(s.subrange(at, at + all.len())[k] == all[k]);
    }
    assert forall|k: int| 0 <= k < b.len() implies s[at + a.len() + k] == b[k] by {
        assert(s.subrange(at, at + all.len())[a.len() + k] == all[a.len() + k]);
    }
    assert(s.subrange(at, at + a.len()) =~= a);
    assert(s.subrange(at + a.len(), at + a.len() + b.len()) =~= b);
}

/// The characters of what stands somewhere.
proof fn lemma_char(s: Seq<char>, t: Seq<char>, at: int, k: int)
    requires
        occurs_at(s, t, at),
        0 <= k < t.len(),
    ensures
        0 <= at + k < s.len(),
        s[at + k] == t[k],
{
    assert(s.subrange(at, at + t.len())[k] == t[k]);
}

/// No spaces to pass over where none stands.
proof fn lemma_no_space(s: Seq<char>, at: int)
    requires
        at == s.len() || (0 <= at < s.len() && !is_json_space(s[at])),
    ensures
        skip_space(s, at) == at,
{
}

// ---- strings ----

/// A text written inside a string is its first character, and then the rest.
proof fn lemma_escaped_first(t: Seq<char>)
    requires
        t.len() > 0,
    ensures
        escaped(t) == escape(t[0]) + escaped(t.drop_first()),
    decreases t.len(),
{
    if t.len() == 1 {
        assert(t.drop_last() =~= Seq::<char>::empty());
        assert(t.drop_first() =~= Seq::<char>::empty());
        assert(escaped(t.drop_last()) =~= Seq::<char>::empty());
        assert(escaped(t) =~= escape(t[0]) + escaped(t.drop_first()));
    } else {
        lemma_escaped_first(t.drop_last());
        assert(t.drop_last().drop_first() =~= t.drop_first().drop_last());
        assert(escaped(t) =~= escape(t[0]) + (escaped(t.drop_first().drop_last()) + escape(
            t.last(),
        )));
        assert(t.drop_first().last() == t.last());
    }
}

/// A hexadecimal digit is read as what it was written for.
proof fn lemma_hex_digit(n: nat)
    requires
        n < 16,
    ensures
        is_hex(hex_digit(n)),
        hex_value(hex_digit(n)) == n,
{
}

/// One character of a string is read back.
proof fn lemma_read_one(s: Seq<char>, c: char, at: int)
    requires
        occurs_at(s, escape(c), at),
    ensures
        0 <= at < s.len(),
        s[at] != '"',
        at + escape(c).len() <= s.len(),
        s[at] == '\\' ==> read_escape(s, at + 1) == Some((c, at + escape(c).len())),
        s[at] != '\\' ==> s[at] == c && s[at] > '\u{1f}' && escape(c).len() == 1,
{
    let e = escape(c);
    lemma_char(s, e, at, 0);
    if e.len() > 1 {
        lemma_char(s, e, at, 1);
    }
    if e.len() > 2 {
        lemma_char(s, e, at, 2);
        lemma_char(s, e, at, 3);
        lemma_char(s, e, at, 4);
        lemma_char(s, e, at, 5);
        lemma_hex_digit(c as nat / 16);
        lemma_hex_digit(c as nat % 16);
        assert(hex_value('0') == 0);
        assert(is_hex('0'));
        assert(hex4(s, at + 2) == Some(c as nat));
    }
}

/// A string is read back, from behind its opening quote.
proof fn lemma_read_string(s: Seq<char>, t: Seq<char>, at: int)
    requires
        occurs_at(s, escaped(t) + seq!['"'], at),
    ensures
        read_string(s, at) == Some((t, at + escaped(t).len() + 1)),
    decreases t.len(),
{
    lemma_parts(s, escaped(t), seq!['"'], at);
    lemma_char(s, seq!['"'], at + escaped(t).len(), 0);
    if t.len() == 0 {
        assert(t =~= Seq::<char>::empty());
    } else {
        lemma_escaped_first(t);
        let rest = t.drop_first();
        let e = escape(t[0]);
        assert(escaped(t) + seq!['"'] =~= e + (escaped(rest) + seq!['"']));
        lemma_parts(s, e, escaped(rest) + seq!['"'], at);
        lemma_read_one(s, t[0], at);
        lemma_read_string(s, rest, at + e.len());
        assert(seq![t[0]] + rest =~= t);
        assert(e.len() >= 1);
    }
}

// ---- numbers ----

/// Digits end where the next character is none.
proof fn lemma_digits_up_to(s: Seq<char>, at: int, end: int)
    requires
        0 <= at <= end <= s.len(),
        forall|k: int| at <= k < end ==> is_digit(#[trigger] s[k]),
        end == s.len() || !is_digit(s[end]),
    ensures
        digits_end(s, at) == end,
    decreases end - at,
{
    if at < end {
        assert(is_digit(s[at]));
        lemma_digits_up_to(s, at + 1, end);
    }
}

/// Zeros before digits change no value.
proof fn lemma_zeros_before(n: nat, d: Seq<char>)
    ensures
        digits_value(zeros(n) + d) == digits_value(d),
    decreases n + d.len(),
{
    let all = zeros(n) + d;
    if d.len() > 0 {
        lemma_zeros_before(n, d.drop_last());
        assert(all.drop_last() =~= zeros(n) + d.drop_last());
    } else if n > 0 {
        lemma_zeros_before((n - 1) as nat, d);
        assert(all.drop_last() =~= zeros((n - 1) as nat) + d);
        assert(all.last() == '0');
    } else {
        assert(all =~= d);
    }
}

/// A number that is not zero does not start with one in decimal.
proof fn lemma_decimal_edges(n: nat)
    ensures
        decimal(n).len() > 0,
        n > 0 ==> decimal(n)[0] != '0',
        n == 0 ==> decimal(n) == seq!['0'],
    decreases n,
{
    if n >= 10 {
        lemma_decimal_edges(n / 10);
        assert(decimal(n)[0] == decimal(n / 10)[0]);
    }
}

/// What the digits of a number are.
proof fn lemma_number_digits(n: Double)
    ensures
        all_digits(number_digits(n)),
        digits_value(number_digits(n)) == n.scaled(n.places()),
        number_digits(n).len() >= n.places() + 1,
        number_digits(n)[0] == '0' ==> number_digits(n).len() == n.places() + 1,
{
    let m = n.scaled(n.places());
    let d = number_digits(n);
    let short = decimal(m);
    lemma_decimal(m);
    lemma_decimal_edges(m);
    if short.len() <= n.places() {
        let z = (n.places() + 1 - short.len()) as nat;
        lemma_zeros_before(z, short);
        assert forall|k: int| 0 <= k < d.len() implies is_digit(#[trigger] d[k]) by {
            if k < z {
                assert(d[k] == '0');
            } else {
                assert(d[k] == short[k - z]);
            }
        }
    }
}

/// The digits of a number are read as the number.
proof fn lemma_digits_are_the_number(n: Double)
    requires
        n.valid(),
    ensures
        decimal_double(n.negative, number_digits(n), n.places() as int) == n,
{
    lemma_number_digits(n);
    law_a_double_reads_back(n);
    assert(pow10(0) == 1);
    let m = n.scaled(n.places());
    assert(m * 1 == m) by (nonlinear_arith);
}

/// What stands somewhere is what is between its ends.
proof fn lemma_stands(s: Seq<char>, t: Seq<char>, at: int)
    requires
        occurs_at(s, t, at),
    ensures
        s.subrange(at, at + t.len()) == t,
        all_digits(t) ==> forall|k: int| at <= k < at + t.len() ==> is_digit(#[trigger] s[k]),
{
    assert forall|k: int| all_digits(t) && at <= k < at + t.len() implies is_digit(
        #[trigger] s[k],
    ) by {
        lemma_char(s, t, at, k - at);
        assert(is_digit(t[k - at]));
    }
}

/// The sign of a number.
pub open spec fn sign_of(n: Double) -> Seq<char> {
    if n.negative {
        seq!['-']
    } else {
        Seq::empty()
    }
}

/// A whole number is read back.
proof fn lemma_read_whole(s: Seq<char>, n: Double, at: int)
    requires
        n.valid(),
        n.places() == 0,
        occurs_at(s, number_text(n), at),
        stops(s, at + number_text(n).len()),
    ensures
        read_number(s, at) == Some((n, at + number_text(n).len())),
        0 <= at < s.len(),
        s[at] == '-' || is_digit(s[at]),
{
    let d = number_digits(n);
    let sign = sign_of(n);
    let start = at + sign.len();
    let end = at + number_text(n).len();
    lemma_number_digits(n);
    lemma_digits_are_the_number(n);
    assert(number_text(n) =~= sign + d);
    lemma_parts(s, sign, d, at);
    lemma_stands(s, d, start);
    lemma_char(s, d, start, 0);
    if n.negative {
        lemma_char(s, sign, at, 0);
    }
    lemma_digits_up_to(s, start, end);
    assert(d + Seq::<char>::empty() =~= d);
    assert(read_exponent(s, end) == Some((0int, end)));
}

/// A number with a point is read back.
proof fn lemma_read_pointed(s: Seq<char>, n: Double, at: int)
    requires
        n.valid(),
        n.places() > 0,
        occurs_at(s, number_text(n), at),
        stops(s, at + number_text(n).len()),
    ensures
        read_number(s, at) == Some((n, at + number_text(n).len())),
        0 <= at < s.len(),
        s[at] == '-' || is_digit(s[at]),
{
    let d = number_digits(n);
    let sign = sign_of(n);
    let start = at + sign.len();
    let end = at + number_text(n).len();
    lemma_number_digits(n);
    lemma_digits_are_the_number(n);
    let count = d.len() - n.places();
    let head = d.take(count);
    let tail = d.skip(count);
    assert(head + tail =~= d);
    assert(number_text(n) =~= sign + (head + (seq!['.'] + tail)));
    lemma_parts(s, sign, head + (seq!['.'] + tail), at);
    lemma_parts(s, head, seq!['.'] + tail, start);
    lemma_parts(s, seq!['.'], tail, start + count);
    lemma_char(s, seq!['.'], start + count, 0);
    assert(all_digits(head)) by {
        assert forall|k: int| 0 <= k < head.len() implies is_digit(#[trigger] head[k]) by {
            assert(head[k] == d[k]);
        }
    }
    assert(all_digits(tail)) by {
        assert forall|k: int| 0 <= k < tail.len() implies is_digit(#[trigger] tail[k]) by {
            assert(tail[k] == d[count + k]);
        }
    }
    lemma_stands(s, head, start);
    lemma_stands(s, tail, start + count + 1);
    lemma_char(s, head, start, 0);
    assert(head[0] == d[0]);
    if n.negative {
        lemma_char(s, sign, at, 0);
    }
    lemma_digits_up_to(s, start, start + count);
    lemma_digits_up_to(s, start + count + 1, end);
    assert(read_exponent(s, end) == Some((0int, end)));
}

/// A number is read back.
proof fn lemma_read_number(s: Seq<char>, n: Double, at: int)
    requires
        n.valid(),
        occurs_at(s, number_text(n), at),
        stops(s, at + number_text(n).len()),
    ensures
        read_number(s, at) == Some((n, at + number_text(n).len())),
        0 <= at < s.len(),
        s[at] == '-' || is_digit(s[at]),
{
    if n.places() == 0 {
        lemma_read_whole(s, n, at);
    } else {
        lemma_read_pointed(s, n, at);
    }
}

// ---- values ----

/// How a value starts when it is written.
proof fn lemma_first(v: Value)
    ensures
        rendered(v).len() > 0,
        ({
            let c = rendered(v)[0];
            &&& !is_json_space(c)
            &&& c != ']'
            &&& c != '}'
            &&& v is Null ==> c == 'n'
            &&& v is Bool ==> c == 't' || c == 'f'
            &&& v is Number ==> c == '-' || is_digit(c)
            &&& v is Text ==> c == '"'
            &&& v is List ==> c == '['
            &&& v is Record ==> c == '{'
        }),
{
    match v {
        Value::Number(n) => {
            let d = number_digits(n);
            let short = decimal(n.scaled(n.places()));
            lemma_decimal(n.scaled(n.places()));
            if short.len() <= n.places() {
                assert(d[0] == '0');
            }
            assert(is_digit(d[0]));
            assert(d.len() - n.places() >= 1);
            if n.places() > 0 {
                assert(d.take(d.len() - n.places())[0] == d[0]);
            }
        },
        _ => {},
    }
}

/// Where an item of a list starts, after the list's opening bracket.
pub open spec fn item_at(v: Value, k: nat) -> int {
    if k == 0 {
        0
    } else {
        rendered_items(v, k).len() as int + 1
    }
}

/// Each item of a list stands where it is said to, with a comma behind it while
/// there are more.
proof fn lemma_item_stands(s: Seq<char>, base: int, v: Value, n: nat, k: nat)
    requires
        v is List,
        k < n <= v->List_0.len(),
        occurs_at(s, rendered_items(v, n), base),
    ensures
        occurs_at(s, rendered(v->List_0[k as int]), base + item_at(v, k)),
        item_at(v, k) + rendered(v->List_0[k as int]).len() == rendered_items(v, k + 1).len(),
        rendered_items(v, k + 1).len() <= rendered_items(v, n).len(),
        k + 1 < n ==> 0 <= base + rendered_items(v, k + 1).len() < s.len() && s[base
            + rendered_items(v, k + 1).len()] == ',',
    decreases n,
{
    let last = rendered(v->List_0[n - 1]);
    if n > 1 {
        let front = rendered_items(v, (n - 1) as nat);
        assert(rendered_items(v, n) =~= front + (seq![','] + last));
        lemma_parts(s, front, seq![','] + last, base);
        lemma_parts(s, seq![','], last, base + front.len());
        lemma_char(s, seq![','], base + front.len(), 0);
        if k < n - 1 {
            lemma_item_stands(s, base, v, (n - 1) as nat, k);
        }
    }
}

/// Where a field of an object starts, after the object's opening brace.
pub open spec fn field_at(v: Value, k: nat) -> int {
    if k == 0 {
        0
    } else {
        rendered_fields(v, k).len() as int + 1
    }
}

/// A field as it is written.
pub open spec fn field_text(f: (Seq<char>, Value)) -> Seq<char> {
    quoted(f.0) + (seq![':'] + rendered(f.1))
}

/// Each field of an object stands where it is said to, with a comma behind it
/// while there are more.
proof fn lemma_field_stands(s: Seq<char>, base: int, v: Value, n: nat, k: nat)
    requires
        v is Record,
        k < n <= v->Record_0.len(),
        occurs_at(s, rendered_fields(v, n), base),
    ensures
        occurs_at(s, field_text(v->Record_0[k as int]), base + field_at(v, k)),
        field_at(v, k) + field_text(v->Record_0[k as int]).len() == rendered_fields(v, k + 1).len(),
        rendered_fields(v, k + 1).len() <= rendered_fields(v, n).len(),
        k + 1 < n ==> 0 <= base + rendered_fields(v, k + 1).len() < s.len() && s[base
            + rendered_fields(v, k + 1).len()] == ',',
    decreases n,
{
    let last = field_text(v->Record_0[n - 1]);
    if n == 1 {
        assert(rendered_fields(v, n) =~= last);
    } else {
        let front = rendered_fields(v, (n - 1) as nat);
        assert(rendered_fields(v, n) =~= front + (seq![','] + last));
        lemma_parts(s, front, seq![','] + last, base);
        lemma_parts(s, seq![','], last, base + front.len());
        lemma_char(s, seq![','], base + front.len(), 0);
        if k < n - 1 {
            lemma_field_stands(s, base, v, (n - 1) as nat, k);
        }
    }
}

/// The items of a list are read back, from one of them on.
proof fn lemma_read_items(s: Seq<char>, base: int, v: Value, depth: nat, k: nat)
    requires
        v is List,
        k < v->List_0.len(),
        depth > 0,
        is_writable(v, depth),
        occurs_at(s, rendered_items(v, v->List_0.len()) + seq![']'], base),
    ensures
        read_items(s, base + item_at(v, k), depth) == Some(
            (v->List_0.skip(k as int), base + rendered_items(v, v->List_0.len()).len() + 1),
        ),
    decreases depth, 0nat, v->List_0.len() - k,
{
    let items = v->List_0;
    let text = rendered_items(v, items.len());
    let close = base + text.len();
    lemma_parts(s, text, seq![']'], base);
    lemma_char(s, seq![']'], close, 0);
    lemma_item_stands(s, base, v, items.len(), k);
    let at = base + item_at(v, k);
    let item = items[k as int];
    let end = base + rendered_items(v, k + 1).len();
    assert(at + rendered(item).len() == end);
    lemma_first(item);
    lemma_read_value(s, at, item, (depth - 1) as nat);
    lemma_no_space(s, end);
    if k + 1 == items.len() {
        assert(items.skip(k as int) =~= seq![item]);
    } else {
        lemma_read_items(s, base, v, depth, k + 1);
        assert(base + item_at(v, k + 1) == end + 1);
        assert(seq![item] + items.skip(k as int + 1) =~= items.skip(k as int));
    }
}

/// The fields of an object are read back, from one of them on.
proof fn lemma_read_fields(s: Seq<char>, base: int, v: Value, depth: nat, k: nat)
    requires
        v is Record,
        k < v->Record_0.len(),
        depth > 0,
        is_writable(v, depth),
        occurs_at(s, rendered_fields(v, v->Record_0.len()) + seq!['}'], base),
    ensures
        read_fields(s, base + field_at(v, k), depth) == Some(
            (v->Record_0.skip(k as int), base + rendered_fields(v, v->Record_0.len()).len() + 1),
        ),
    decreases depth, 0nat, v->Record_0.len() - k,
{
    let fields = v->Record_0;
    let text = rendered_fields(v, fields.len());
    let close = base + text.len();
    lemma_parts(s, text, seq!['}'], base);
    lemma_char(s, seq!['}'], close, 0);
    lemma_field_stands(s, base, v, fields.len(), k);
    let at = base + field_at(v, k);
    let f = fields[k as int];
    let end = base + rendered_fields(v, k + 1).len();
    assert(at + field_text(f).len() == end);
    let name = escaped(f.0) + seq!['"'];
    assert(quoted(f.0) =~= seq!['"'] + name);
    lemma_parts(s, quoted(f.0), seq![':'] + rendered(f.1), at);
    lemma_parts(s, seq!['"'], name, at);
    lemma_char(s, seq!['"'], at, 0);
    lemma_read_string(s, f.0, at + 1);
    let colon = at + quoted(f.0).len();
    lemma_parts(s, seq![':'], rendered(f.1), colon);
    lemma_char(s, seq![':'], colon, 0);
    lemma_no_space(s, at);
    lemma_no_space(s, colon);
    lemma_first(f.1);
    assert(colon + 1 + rendered(f.1).len() == end);
    lemma_read_value(s, colon + 1, f.1, (depth - 1) as nat);
    lemma_no_space(s, end);
    if k + 1 == fields.len() {
        assert(fields.skip(k as int) =~= seq![f]);
    } else {
        lemma_read_fields(s, base, v, depth, k + 1);
        assert(base + field_at(v, k + 1) == end + 1);
        assert(seq![f] + fields.skip(k as int + 1) =~= fields.skip(k as int));
    }
}

/// A value is read back from where it stands.
proof fn lemma_read_value(s: Seq<char>, at: int, v: Value, depth: nat)
    requires
        is_writable(v, depth),
        occurs_at(s, rendered(v), at),
        stops(s, at + rendered(v).len()),
    ensures
        read_value(s, at, depth) == Some((v, at + rendered(v).len())),
    decreases depth, 1nat, 0int,
{
    let text = rendered(v);
    lemma_first(v);
    lemma_char(s, text, at, 0);
    lemma_no_space(s, at);
    match v {
        Value::Null => {
            reveal_strlit("null");
            assert("null"@ =~= text);
        },
        Value::Bool(true) => {
            reveal_strlit("true");
            assert("true"@ =~= text);
        },
        Value::Bool(false) => {
            reveal_strlit("false");
            assert("false"@ =~= text);
        },
        Value::Number(n) => {
            lemma_read_number(s, n, at);
        },
        Value::Text(t) => {
            assert(text =~= seq!['"'] + (escaped(t) + seq!['"']));
            lemma_parts(s, seq!['"'], escaped(t) + seq!['"'], at);
            lemma_read_string(s, t, at + 1);
        },
        Value::List(items) => {
            let inner = rendered_items(v, items.len()) + seq![']'];
            assert(text =~= seq!['['] + inner);
            lemma_parts(s, seq!['['], inner, at);
            lemma_char(s, inner, at + 1, 0);
            if items.len() == 0 {
                assert(rendered_items(v, 0) =~= Seq::<char>::empty());
                assert(inner =~= seq![']']);
                lemma_no_space(s, at + 1);
                assert(items =~= Seq::<Value>::empty());
            } else {
                lemma_parts(s, rendered_items(v, items.len()), seq![']'], at + 1);
                lemma_item_stands(s, at + 1, v, items.len(), 0);
                lemma_first(items[0]);
                lemma_char(s, rendered(items[0]), at + 1, 0);
                lemma_no_space(s, at + 1);
                lemma_read_items(s, at + 1, v, depth, 0);
                assert(items.skip(0) =~= items);
            }
        },
        Value::Record(fields) => {
            let inner = rendered_fields(v, fields.len()) + seq!['}'];
            assert(text =~= seq!['{'] + inner);
            lemma_parts(s, seq!['{'], inner, at);
            lemma_char(s, inner, at + 1, 0);
            if fields.len() == 0 {
                assert(rendered_fields(v, 0) =~= Seq::<char>::empty());
                assert(inner =~= seq!['}']);
                lemma_no_space(s, at + 1);
                assert(fields =~= Seq::<(Seq<char>, Value)>::empty());
            } else {
                lemma_parts(s, rendered_fields(v, fields.len()), seq!['}'], at + 1);
                lemma_field_stands(s, at + 1, v, fields.len(), 0);
                lemma_char(s, field_text(fields[0]), at + 1, 0);
                assert(field_text(fields[0])[0] == '"');
                lemma_no_space(s, at + 1);
                lemma_read_fields(s, at + 1, v, depth, 0);
                assert(fields.skip(0) =~= fields);
            }
        },
    }
}

/// A value written out is read back as the value it was.
pub proof fn law_what_is_written_reads_back(v: Value)
    requires
        is_writable(v, MAX_DEPTH as nat),
    ensures
        parsed(rendered(v)) == Some(v),
{
    let s = rendered(v);
    assert(s.subrange(0, s.len() as int) =~= s);
    lemma_read_value(s, 0, v, MAX_DEPTH as nat);
    lemma_no_space(s, s.len() as int);
}

// ---- no control characters ----

/// No character of a text is a control character of ASCII.
pub open spec fn is_visible(s: Seq<char>) -> bool {
    forall|k: int| 0 <= k < s.len() ==> (#[trigger] s[k]) > '\u{1f}'
}

/// Two visible texts joined are one.
proof fn lemma_visible_parts(a: Seq<char>, b: Seq<char>)
    requires
        is_visible(a),
        is_visible(b),
    ensures
        is_visible(a + b),
{
    assert forall|k: int| 0 <= k < (a + b).len() implies (#[trigger] (a + b)[k]) > '\u{1f}' by {
        if k < a.len() {
            assert((a + b)[k] == a[k]);
        } else {
            assert((a + b)[k] == b[k - a.len()]);
        }
    }
}

/// A character written inside a string is visible.
proof fn lemma_escape_is_visible(c: char)
    ensures
        is_visible(escape(c)),
{
    if c <= '\u{1f}' {
        lemma_hex_digit(c as nat / 16);
        lemma_hex_digit(c as nat % 16);
    }
}

/// A text written inside a string is visible.
proof fn lemma_escaped_is_visible(t: Seq<char>)
    ensures
        is_visible(escaped(t)),
    decreases t.len(),
{
    if t.len() > 0 {
        lemma_escaped_is_visible(t.drop_last());
        lemma_escape_is_visible(t.last());
        lemma_visible_parts(escaped(t.drop_last()), escape(t.last()));
    }
}

/// A string is visible.
proof fn lemma_quoted_is_visible(t: Seq<char>)
    ensures
        is_visible(quoted(t)),
{
    lemma_escaped_is_visible(t);
    lemma_visible_parts(seq!['"'], escaped(t));
    lemma_visible_parts(seq!['"'] + escaped(t), seq!['"']);
}

/// A number is visible.
proof fn lemma_number_is_visible(n: Double)
    ensures
        is_visible(number_text(n)),
{
    let short = decimal(n.scaled(n.places()));
    lemma_decimal(n.scaled(n.places()));
    let d = number_digits(n);
    assert forall|k: int| 0 <= k < short.len() implies (#[trigger] short[k]) > '\u{1f}' by {
        assert(is_digit(short[k]));
    }
    if short.len() <= n.places() {
        lemma_visible_parts(zeros((n.places() + 1 - short.len()) as nat), short);
    }
    assert(is_visible(d));
    let sign = if n.negative {
        seq!['-']
    } else {
        Seq::<char>::empty()
    };
    if n.places() == 0 {
        lemma_visible_parts(sign, d);
    } else {
        let whole = d.len() - n.places();
        lemma_visible_parts(sign, d.take(whole));
        lemma_visible_parts(sign + d.take(whole), seq!['.']);
        lemma_visible_parts(sign + d.take(whole) + seq!['.'], d.skip(whole));
    }
}

/// The items of a list are visible.
proof fn lemma_items_are_visible(v: Value, n: nat)
    ensures
        is_visible(rendered_items(v, n)),
    decreases v, n,
{
    match v {
        Value::List(items) => {
            if n > 1 && n <= items.len() {
                lemma_items_are_visible(v, (n - 1) as nat);
                law_what_is_written_is_visible(items[n - 1]);
                lemma_visible_parts(rendered_items(v, (n - 1) as nat), seq![',']);
                lemma_visible_parts(
                    rendered_items(v, (n - 1) as nat) + seq![','],
                    rendered(items[n - 1]),
                );
            } else if n == 1 && n <= items.len() {
                law_what_is_written_is_visible(items[0]);
            }
        },
        _ => {},
    }
}

/// The fields of an object are visible.
proof fn lemma_fields_are_visible(v: Value, n: nat)
    ensures
        is_visible(rendered_fields(v, n)),
    decreases v, n,
{
    match v {
        Value::Record(fields) => {
            if n >= 1 && n <= fields.len() {
                let f = fields[n - 1];
                law_what_is_written_is_visible(f.1);
                lemma_quoted_is_visible(f.0);
                if n == 1 {
                    lemma_visible_parts(quoted(f.0), seq![':']);
                    lemma_visible_parts(quoted(f.0) + seq![':'], rendered(f.1));
                } else {
                    let front = rendered_fields(v, (n - 1) as nat);
                    lemma_fields_are_visible(v, (n - 1) as nat);
                    lemma_visible_parts(front, seq![',']);
                    lemma_visible_parts(front + seq![','], quoted(f.0));
                    lemma_visible_parts(front + seq![','] + quoted(f.0), seq![':']);
                    lemma_visible_parts(
                        front + seq![','] + quoted(f.0) + seq![':'],
                        rendered(f.1),
                    );
                }
            }
        },
        _ => {},
    }
}

/// Whatever a value holds, no control character is written: not the NUL that
/// ends a message, nor the end of a line.
pub proof fn law_what_is_written_is_visible(v: Value)
    ensures
        is_visible(rendered(v)),
    decreases
            v,
            (match v {
                Value::List(items) => items.len(),
                Value::Record(fields) => fields.len(),
                _ => 0,
            }) + 1,
{
    match v {
        Value::Number(n) => {
            lemma_number_is_visible(n);
        },
        Value::Text(t) => {
            lemma_quoted_is_visible(t);
        },
        Value::List(items) => {
            lemma_items_are_visible(v, items.len());
            lemma_visible_parts(seq!['['], rendered_items(v, items.len()));
            lemma_visible_parts(seq!['['] + rendered_items(v, items.len()), seq![']']);
        },
        Value::Record(fields) => {
            lemma_fields_are_visible(v, fields.len());
            lemma_visible_parts(seq!['{'], rendered_fields(v, fields.len()));
            lemma_visible_parts(seq!['{'] + rendered_fields(v, fields.len()), seq!['}']);
        },
        _ => {},
    }
}

}
