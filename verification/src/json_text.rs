//! A JSON value as text, and the value a text is.
use vstd::prelude::*;

use vstd::slice::slice_subrange;

use crate::double::Double;
use crate::json::{
    lemma_field_is_smaller, lemma_item_is_smaller, lemma_list_view, lemma_record_view, Json, Value,
};
use crate::strings::{chars_of, decimal, string_of};

verus! {

/// A hexadecimal digit, in lower case.
pub open spec fn hex_digit(n: nat) -> char {
    if n < 10 {
        ((48 + n) as u8) as char
    } else {
        ((87 + n) as u8) as char
    }
}

/// A character as it is written inside a JSON string.
pub open spec fn escape(c: char) -> Seq<char> {
    if c == '"' {
        seq!['\\', '"']
    } else if c == '\\' {
        seq!['\\', '\\']
    } else if c == '\n' {
        seq!['\\', 'n']
    } else if c == '\r' {
        seq!['\\', 'r']
    } else if c == '\t' {
        seq!['\\', 't']
    } else if c <= '\u{1f}' {
        seq!['\\', 'u', '0', '0', hex_digit(c as nat / 16), hex_digit(c as nat % 16)]
    } else {
        seq![c]
    }
}

/// A text as it is written inside a JSON string.
pub open spec fn escaped(s: Seq<char>) -> Seq<char>
    decreases s.len(),
{
    if s.len() == 0 {
        Seq::empty()
    } else {
        escaped(s.drop_last()) + escape(s.last())
    }
}

/// A text as a JSON string.
pub open spec fn quoted(s: Seq<char>) -> Seq<char> {
    seq!['"'] + escaped(s) + seq!['"']
}

/// `n` zeros.
pub open spec fn zeros(n: nat) -> Seq<char> {
    Seq::new(n, |i: int| '0')
}

/// The digits of a number, at least one more of them than stand after the
/// point.
pub open spec fn number_digits(n: Double) -> Seq<char> {
    let d = decimal(n.scaled(n.places()));
    if d.len() <= n.places() {
        zeros((n.places() + 1 - d.len()) as nat) + d
    } else {
        d
    }
}

/// A number as JSON text: with the fewest places after the point that read
/// back as the same double.
pub open spec fn number_text(n: Double) -> Seq<char> {
    let sign = if n.negative {
        seq!['-']
    } else {
        Seq::empty()
    };
    let d = number_digits(n);
    let whole = d.len() - n.places();
    if n.places() == 0 {
        sign + d
    } else {
        sign + d.take(whole) + seq!['.'] + d.skip(whole)
    }
}

/// A value as JSON text, with no spaces in it.
pub open spec fn rendered(v: Value) -> Seq<char>
    decreases
            v,
            (match v {
                Value::List(items) => items.len(),
                Value::Record(fields) => fields.len(),
                _ => 0,
            }) + 1,
{
    match v {
        Value::Null => seq!['n', 'u', 'l', 'l'],
        Value::Bool(true) => seq!['t', 'r', 'u', 'e'],
        Value::Bool(false) => seq!['f', 'a', 'l', 's', 'e'],
        Value::Number(n) => number_text(n),
        Value::Text(s) => quoted(s),
        Value::List(items) => seq!['['] + rendered_items(v, items.len()) + seq![']'],
        Value::Record(fields) => seq!['{'] + rendered_fields(v, fields.len()) + seq!['}'],
    }
}

/// The first `n` items of a list, with commas between them.
pub open spec fn rendered_items(v: Value, n: nat) -> Seq<char>
    decreases v, n,
{
    match v {
        Value::List(items) => if n == 0 || n > items.len() {
            Seq::empty()
        } else if n == 1 {
            rendered(items[0])
        } else {
            rendered_items(v, (n - 1) as nat) + seq![','] + rendered(items[n - 1])
        },
        _ => Seq::empty(),
    }
}

/// The first `n` fields of a record, with commas between them.
pub open spec fn rendered_fields(v: Value, n: nat) -> Seq<char>
    decreases v, n,
{
    match v {
        Value::Record(fields) => if n == 0 || n > fields.len() {
            Seq::empty()
        } else if n == 1 {
            quoted(fields[0].0) + seq![':'] + rendered(fields[0].1)
        } else {
            rendered_fields(v, (n - 1) as nat) + seq![','] + quoted(fields[n - 1].0) + seq![':']
                + rendered(fields[n - 1].1)
        },
        _ => Seq::empty(),
    }
}

/// The hexadecimal digit of a number below sixteen.
fn hex_digit_char(n: u32) -> (c: char)
    requires
        n < 16,
    ensures
        c == hex_digit(n as nat),
{
    if n < 10 {
        (48 + n as u8) as char
    } else {
        (87 + n as u8) as char
    }
}

/// Add a character, as it is written inside a JSON string, to what has been
/// written.
fn write_escaped(out: &mut Vec<char>, c: char)
    ensures
        final(out)@ == old(out)@ + escape(c),
{
    let ghost before = out@;
    if c == '"' {
        out.push('\\');
        out.push('"');
    } else if c == '\\' {
        out.push('\\');
        out.push('\\');
    } else if c == '\n' {
        out.push('\\');
        out.push('n');
    } else if c == '\r' {
        out.push('\\');
        out.push('r');
    } else if c == '\t' {
        out.push('\\');
        out.push('t');
    } else if c <= '\u{1f}' {
        out.push('\\');
        out.push('u');
        out.push('0');
        out.push('0');
        out.push(hex_digit_char(c as u32 / 16));
        out.push(hex_digit_char(c as u32 % 16));
    } else {
        out.push(c);
    }
    proof {
        assert(out@ =~= before + escape(c));
    }
}

/// Add a text, as a JSON string, to what has been written.
fn write_quoted(out: &mut Vec<char>, s: &str)
    ensures
        final(out)@ == old(out)@ + quoted(s@),
{
    let s = chars_of(s);
    let ghost before = out@ + seq!['"'];
    out.push('"');
    let mut i: usize = 0;
    proof {
        assert(out@ =~= before + escaped(s@.take(0)));
    }
    while i < s.len()
        invariant
            i <= s@.len(),
            out@ == before + escaped(s@.take(i as int)),
        decreases s@.len() - i,
    {
        write_escaped(out, s[i]);
        i += 1;
        proof {
            assert(s@.take(i as int).drop_last() =~= s@.take(i - 1));
            assert(out@ =~= before + escaped(s@.take(i as int)));
        }
    }
    out.push('"');
    proof {
        assert(s@.take(i as int) =~= s@);
        assert(out@ =~= old(out)@ + quoted(s@));
    }
}

/// Add some characters to what has been written.
fn write_all(out: &mut Vec<char>, more: &[char])
    ensures
        final(out)@ == old(out)@ + more@,
{
    let ghost before = out@;
    let mut i: usize = 0;
    while i < more.len()
        invariant
            i <= more@.len(),
            out@ == before + more@.take(i as int),
        decreases more@.len() - i,
    {
        out.push(more[i]);
        i += 1;
        proof {
            assert(before + more@.take(i as int) =~= (before + more@.take(i - 1)).push(
                more@[i - 1],
            ));
        }
    }
    proof {
        assert(more@.take(i as int) =~= more@);
    }
}

/// The digits of a number, enough of them for the point to stand among them,
/// and how many stand after it.
fn number_digits_chars(n: Double) -> (r: (Vec<char>, usize))
    ensures
        r.0@ == number_digits(n),
        r.1 == n.places(),
        r.0@.len() > n.places(),
{
    let (d, after) = n.spelled();
    let places: usize = after as usize;
    if d.len() > places {
        return (d, places);
    }
    let padding: usize = places + 1 - d.len();
    let mut v: Vec<char> = Vec::new();
    let mut i: usize = 0;
    while i < padding
        invariant
            i <= padding,
            v@ == zeros(i as nat),
        decreases padding - i,
    {
        v.push('0');
        i += 1;
        proof {
            assert(v@ =~= zeros(i as nat));
        }
    }
    write_all(&mut v, d.as_slice());
    (v, places)
}

/// Add a number to what has been written.
fn write_number(out: &mut Vec<char>, n: Double)
    ensures
        final(out)@ == old(out)@ + number_text(n),
{
    let ghost before = out@;
    if n.negative {
        out.push('-');
    }
    let (d, places) = number_digits_chars(n);
    let whole: usize = d.len() - places;
    if places == 0 {
        write_all(out, d.as_slice());
    } else {
        write_all(out, slice_subrange(d.as_slice(), 0, whole));
        out.push('.');
        write_all(out, slice_subrange(d.as_slice(), whole, d.len()));
        proof {
            assert(d@.take(whole as int) =~= d@.subrange(0, whole as int));
            assert(d@.skip(whole as int) =~= d@.subrange(whole as int, d@.len() as int));
        }
    }
    proof {
        assert(out@ =~= before + number_text(n));
    }
}

/// Add a value to what has been written.
fn write_value(out: &mut Vec<char>, j: &Json)
    ensures
        final(out)@ == old(out)@ + rendered(j@),
    decreases j,
{
    let ghost before = out@;
    match j {
        Json::Null => {
            write_word(out, "null");
            proof {
                reveal_strlit("null");
                assert("null"@ =~= rendered(j@));
            }
        },
        Json::Bool(b) => {
            if *b {
                write_word(out, "true");
                proof {
                    reveal_strlit("true");
                    assert("true"@ =~= rendered(j@));
                }
            } else {
                write_word(out, "false");
                proof {
                    reveal_strlit("false");
                    assert("false"@ =~= rendered(j@));
                }
            }
        },
        Json::Number(n) => write_number(out, *n),
        Json::String(s) => write_quoted(out, s.as_str()),
        Json::Array(items) => {
            out.push('[');
            let ghost open = out@;
            let mut i: usize = 0;
            proof {
                assert(open + rendered_items(j@, 0) =~= open);
            }
            while i < items.len()
                invariant
                    i <= items@.len(),
                    *j == Json::Array(*items),
                    out@ == open + rendered_items(j@, i as nat),
                decreases items@.len() - i,
            {
                let ghost now = out@;
                proof {
                    lemma_list_view(*items);
                    lemma_item_is_smaller(*j, i as int);
                }
                if i > 0 {
                    out.push(',');
                }
                write_value(out, &items[i]);
                i += 1;
                proof {
                    assert(out@ =~= open + rendered_items(j@, i as nat));
                }
            }
            out.push(']');
            proof {
                assert(out@ =~= before + rendered(j@));
            }
        },
        Json::Object(fields) => {
            out.push('{');
            let ghost open = out@;
            let mut i: usize = 0;
            proof {
                assert(open + rendered_fields(j@, 0) =~= open);
            }
            while i < fields.len()
                invariant
                    i <= fields@.len(),
                    *j == Json::Object(*fields),
                    out@ == open + rendered_fields(j@, i as nat),
                decreases fields@.len() - i,
            {
                let ghost now = out@;
                proof {
                    lemma_record_view(*fields);
                    lemma_field_is_smaller(*j, i as int);
                }
                if i > 0 {
                    out.push(',');
                }
                write_quoted(out, fields[i].0.as_str());
                out.push(':');
                write_value(out, &fields[i].1);
                i += 1;
                proof {
                    assert(out@ =~= open + rendered_fields(j@, i as nat));
                }
            }
            out.push('}');
            proof {
                assert(out@ =~= before + rendered(j@));
            }
        },
    }
}

/// Add a word to what has been written.
fn write_word(out: &mut Vec<char>, word: &str)
    ensures
        final(out)@ == old(out)@ + word@,
{
    let word = chars_of(word);
    write_all(out, word.as_slice());
}

impl Json {
    /// The value as JSON text, with no spaces in it.
    pub fn to_string(&self) -> (s: String)
        ensures
            s@ == rendered(self@),
    {
        let mut out: Vec<char> = Vec::new();
        write_value(&mut out, self);
        proof {
            assert(out@ =~= rendered(self@));
        }
        string_of(out.as_slice())
    }
}

/// A value is written as JSON has it: the words for what has one, text in quotes,
/// lists in brackets with commas and records in braces by their names.
pub proof fn law_a_value_is_written_as_json(a: Value, b: Value, name: Seq<char>, s: Seq<char>)
    ensures
        rendered(Value::Null) == "null"@,
        rendered(Value::Bool(true)) == "true"@,
        rendered(Value::Bool(false)) == "false"@,
        rendered(Value::Text(s)) == seq!['"'] + escaped(s) + seq!['"'],
        rendered(Value::List(Seq::empty())) == seq!['[', ']'],
        rendered(Value::List(seq![a])) == seq!['['] + rendered(a) + seq![']'],
        rendered(Value::List(seq![a, b])) == seq!['['] + rendered(a) + seq![','] + rendered(b)
            + seq![']'],
        rendered(Value::Record(Seq::empty())) == seq!['{', '}'],
        rendered(Value::Record(seq![(name, a)])) == seq!['{'] + (seq!['"'] + escaped(name) + seq![
            '"',
            ':',
        ]) + rendered(a) + seq!['}'],
{
    reveal_strlit("null");
    reveal_strlit("true");
    reveal_strlit("false");
    assert(rendered(Value::Null) =~= "null"@);
    assert(rendered(Value::Bool(true)) =~= "true"@);
    assert(rendered(Value::Bool(false)) =~= "false"@);
    let none = Value::List(Seq::empty());
    assert(rendered_items(none, 0) =~= Seq::<char>::empty());
    assert(rendered(none) =~= seq!['[', ']']);
    let one = Value::List(seq![a]);
    assert(rendered_items(one, 1) == rendered(a));
    let two = Value::List(seq![a, b]);
    assert(rendered_items(two, 1) == rendered(a));
    assert(rendered_items(two, 2) == rendered(a) + seq![','] + rendered(b));
    assert(rendered(two) =~= seq!['['] + rendered(a) + seq![','] + rendered(b) + seq![']']);
    let empty = Value::Record(Seq::empty());
    assert(rendered_fields(empty, 0) =~= Seq::<char>::empty());
    assert(rendered(empty) =~= seq!['{', '}']);
    let field = Value::Record(seq![(name, a)]);
    assert(rendered_fields(field, 1) == quoted(name) + seq![':'] + rendered(a));
    assert(rendered(field) =~= seq!['{'] + (seq!['"'] + escaped(name) + seq!['"', ':']) + rendered(
        a,
    ) + seq!['}']);
}

/// Text is written character by character, each as itself but for the quote, the
/// backslash and what is below the space.
pub proof fn law_a_character_is_written_as_itself(a: Seq<char>, b: Seq<char>, c: char)
    ensures
        escaped(a + b) == escaped(a) + escaped(b),
        escaped(seq![c]) == escape(c),
        c >= ' ' && c != '"' && c != '\\' ==> escape(c) == seq![c],
        escape('"') == seq!['\\', '"'] && escape('\\') == seq!['\\', '\\'] && escape('\n') == seq![
            '\\',
            'n',
        ] && escape('\r') == seq!['\\', 'r'] && escape('\t') == seq!['\\', 't'],
        c < ' ' && c != '\n' && c != '\r' && c != '\t' ==> escape(c).take(4) == seq![
            '\\',
            'u',
            '0',
            '0',
        ] && escape(c).len() == 6,
    decreases b.len(),
{
    assert(seq![c].drop_last() =~= Seq::<char>::empty());
    assert(escaped(seq![c].drop_last()) =~= Seq::<char>::empty());
    assert(seq![c].last() == c);
    assert(escaped(seq![c]) =~= escape(c));
    if c < ' ' && c != '\n' && c != '\r' && c != '\t' {
        assert(escape(c).take(4) =~= seq!['\\', 'u', '0', '0']);
    }
    if b.len() == 0 {
        assert(a + b =~= a);
        assert(escaped(a) + escaped(b) =~= escaped(a));
    } else {
        law_a_character_is_written_as_itself(a, b.drop_last(), c);
        assert((a + b).drop_last() =~= a + b.drop_last());
        assert((a + b).last() == b.last());
        assert(escaped(a + b) =~= escaped(a) + escaped(b));
    }
}

}
