//! The host's clipboard: what goes out to it, and what a paste may put in a
//! line.
//!
//! Out is OSC 52, written to the terminal, which puts it on the host's
//! clipboard. The text goes as base64, which is `[A-Za-z0-9+/=]` and nothing
//! else, so a selection needs no sanitizing on the way out whatever the page
//! put in it. In is the terminal's own paste key, and what a line keeps of a
//! paste is [`one_line`].
use vstd::prelude::*;
use vstd::utf8::is_ascii_chars_encode_utf8;

use crate::base64::{decoded, encode, encoded, law_decoding_undoes_encoding};
use crate::bytes::{push_bytes, push_text, utf8};
use crate::json::{
    bool_of, field, field2, lemma_each_is_found, named_once, record_of, text_of, Json, Value,
};
use crate::strings::{byte_len, chars_of, str_byte_len, string_of};
use crate::text::{all_plain, is_plain, law_plain_text_is_left_alone, plain, sanitized};

verus! {

/// The most a copy may be, in bytes of text.
pub const MAX_COPY: usize = 64 * 1024;

/// What the page has selected, as a script for `Runtime.evaluate`.
///
/// The document's selection as text, from the focused frame, followed down
/// through `activeElement` eight frames deep at most; then, if that is empty,
/// the selected range of a focused `<textarea>` or `<input>`.
pub const SELECTION: &'static str = "(function(){var d=document;for(var i=0;i<8;i++){\
var a=d.activeElement;if(!a||a.tagName!=='IFRAME')break;try{var c=a.contentDocument;\
if(!c)break;d=c}catch(e){break}}var s=String(d.getSelection&&d.getSelection());\
if(!s){var f=d.activeElement;if(f&&typeof f.selectionStart==='number'&&\
f.selectionEnd>f.selectionStart){s=f.value.substring(f.selectionStart,f.selectionEnd)}}\
return s})()";

/// The bytes that put a text on the clipboard: `OSC 52 ; c ; base64 ST`.
pub open spec fn copy_bytes(text: Seq<char>) -> Seq<u8> {
    utf8("\x1b]52;c;"@) + encoded(utf8(text)) + utf8("\x1b\\"@)
}

/// The bytes that put `text` on the host's clipboard. `None` over
/// [`MAX_COPY`]: refused whole, never cut.
pub fn osc52(text: &str) -> (r: Option<Vec<u8>>)
    ensures
        match r {
            Some(bytes) => byte_len(text@) <= MAX_COPY && bytes@ == copy_bytes(text@),
            None => byte_len(text@) > MAX_COPY,
        },
{
    if str_byte_len(text) > MAX_COPY {
        return None;
    }
    let mut out: Vec<u8> = Vec::new();
    push_text(&mut out, "\x1b]52;c;");
    let body = encode(text.as_bytes());
    push_bytes(&mut out, body.as_slice());
    push_text(&mut out, "\x1b\\");
    proof {
        assert(out@ =~= copy_bytes(text@));
    }
    Some(out)
}

/// The parameters of the `Runtime.evaluate` that runs [`SELECTION`].
///
/// `returnByValue`, so that the reply carries the string rather than a handle
/// to it in the page.
pub fn selection_params() -> (r: Json)
    ensures
        r@ == selection_asked(),
        r@ == Value::Record(
            seq![
                ("expression"@, Value::Text(SELECTION@)),
                ("returnByValue"@, Value::Bool(true)),
            ],
        ),
{
    let fields = vec![
        ("expression", Json::string(SELECTION)),
        ("returnByValue", Json::Bool(true)),
    ];
    proof {
        assert(record_of(fields@) =~= seq![
            ("expression"@, Value::Text(SELECTION@)),
            ("returnByValue"@, Value::Bool(true)),
        ]);
    }
    Json::object(fields)
}

/// The selection out of the reply to [`selection_params`]; `None` for a reply
/// that is not a string, which is a page that threw.
pub fn selection(reply: &Json) -> (r: Option<String>)
    ensures
        match r {
            Some(s) => text_of(field2(reply@, "result"@, "value"@)) == Some(s@),
            None => text_of(field2(reply@, "result"@, "value"@)) is None,
        },
{
    match reply.text_at2("result", "value") {
        Some(s) => Some(s.to_owned()),
        None => None,
    }
}

/// The plain characters of a text, and no others.
pub open spec fn plain_only(s: Seq<char>) -> Seq<char>
    decreases s.len(),
{
    if s.len() == 0 {
        Seq::empty()
    } else {
        let before = plain_only(s.drop_last());
        if plain(s.last()) {
            before.push(s.last())
        } else {
            before
        }
    }
}

/// What a paste into a line keeps: the text with everything that is not plain
/// taken out, and taken out, not replaced.
///
/// A url copied with its trailing newline is the common case, and a url with
/// a space in the middle is a different url.
pub fn one_line(pasted: &str) -> (r: String)
    ensures
        r@ == plain_only(pasted@),
{
    let s = chars_of(pasted);
    let mut v: Vec<char> = Vec::new();
    let mut i: usize = 0;
    while i < s.len()
        invariant
            i <= s@.len(),
            v@ == plain_only(s@.take(i as int)),
        decreases s@.len() - i,
    {
        if is_plain(s[i]) {
            v.push(s[i]);
        }
        i += 1;
        proof {
            assert(s@.take(i as int).drop_last() =~= s@.take(i - 1));
        }
    }
    proof {
        assert(s@.take(i as int) =~= s@);
    }
    string_of(v.as_slice())
}

/// What a line keeps of a paste is what the row will show, unchanged.
pub proof fn law_a_pasted_line_is_plain(s: Seq<char>)
    ensures
        all_plain(plain_only(s)),
        sanitized(plain_only(s)) == plain_only(s),
        plain_only(plain_only(s)) == plain_only(s),
    decreases s.len(),
{
    lemma_plain_only(s);
    law_plain_text_is_left_alone(plain_only(s));
    lemma_plain_kept(plain_only(s));
}

proof fn lemma_plain_only(s: Seq<char>)
    ensures
        all_plain(plain_only(s)),
    decreases s.len(),
{
    if s.len() > 0 {
        lemma_plain_only(s.drop_last());
        let before = plain_only(s.drop_last());
        assert forall|i: int| 0 <= i < plain_only(s).len() implies plain(
            #[trigger] plain_only(s)[i],
        ) by {
            if i < before.len() {
                assert(plain(before[i]));
            }
        }
    }
}

proof fn lemma_plain_kept(s: Seq<char>)
    requires
        all_plain(s),
    ensures
        plain_only(s) == s,
    decreases s.len(),
{
    if s.len() > 0 {
        assert forall|i: int| 0 <= i < s.drop_last().len() implies plain(
            #[trigger] s.drop_last()[i],
        ) by {
            assert(plain(s[i]));
        }
        lemma_plain_kept(s.drop_last());
        assert(plain(s[s.len() - 1]));
        assert(s.drop_last().push(s.last()) =~= s);
    } else {
        assert(plain_only(s) =~= s);
    }
}

/// A copy carries the text: between the words that ask the terminal for its
/// clipboard and those that end the request stands the text in base64, whole.
pub proof fn law_a_copy_carries_the_text(text: Seq<char>)
    ensures
        ({
            let bytes = copy_bytes(text);
            let n = bytes.len() as int;
            &&& n >= 9
            &&& bytes.take(7) == seq![0x1bu8, 0x5d, 0x35, 0x32, 0x3b, 0x63, 0x3b]
            &&& bytes.skip(n - 2) == seq![0x1bu8, 0x5c]
            &&& decoded(bytes.subrange(7, n - 2)) == Some(utf8(text))
        }),
{
    law_decoding_undoes_encoding(utf8(text));
    let bytes = copy_bytes(text);
    let head = "\x1b]52;c;"@;
    let tail = "\x1b\\"@;
    reveal_strlit("\x1b]52;c;");
    reveal_strlit("\x1b\\");
    assert(head =~= seq!['\x1b', ']', '5', '2', ';', 'c', ';']);
    assert(tail =~= seq!['\x1b', '\\']);
    is_ascii_chars_encode_utf8(head);
    is_ascii_chars_encode_utf8(tail);
    let n = bytes.len() as int;
    assert(bytes.take(7) =~= seq![0x1bu8, 0x5d, 0x35, 0x32, 0x3b, 0x63, 0x3b]);
    assert(bytes.skip(n - 2) =~= seq![0x1bu8, 0x5c]);
    assert(bytes.subrange(7, n - 2) =~= encoded(utf8(text)));
}

/// What is pasted into a line is what can stand in one, all of it, in order.
pub proof fn law_a_pasted_line_keeps_what_is_plain(a: Seq<char>, b: Seq<char>, c: char)
    ensures
        plain_only(a + b) == plain_only(a) + plain_only(b),
        plain(c) ==> plain_only(seq![c]) == seq![c],
        !plain(c) ==> plain_only(seq![c]) == Seq::<char>::empty(),
    decreases b.len(),
{
    assert(seq![c].drop_last() =~= Seq::<char>::empty());
    assert(plain_only(seq![c].drop_last()) =~= Seq::<char>::empty());
    if b.len() == 0 {
        assert(a + b =~= a);
        assert(plain_only(a) + plain_only(b) =~= plain_only(a));
    } else {
        law_a_pasted_line_keeps_what_is_plain(a, b.drop_last(), c);
        assert((a + b).drop_last() =~= a + b.drop_last());
        assert(plain_only(a + b) =~= plain_only(a) + plain_only(b));
    }
}

/// What a page is asked for its selection with.
pub open spec fn selection_asked() -> Value {
    Value::Record(
        seq![("expression"@, Value::Text(SELECTION@)), ("returnByValue"@, Value::Bool(true))],
    )
}

/// The selection is asked for by its script, and comes back as text.
pub proof fn law_the_selection_comes_back_as_text()
    ensures
        text_of(field(selection_asked(), "expression"@)) == Some(SELECTION@),
        bool_of(field(selection_asked(), "returnByValue"@)) == Some(true),
{
    let fields = selection_asked()->Record_0;
    reveal_strlit("expression");
    reveal_strlit("returnByValue");
    assert("expression"@.len() == 10);
    assert("returnByValue"@.len() == 13);
    assert(fields[0].0 == "expression"@ && fields[1].0 == "returnByValue"@);
    assert(named_once(fields));
    lemma_each_is_found(fields);
}

}
