//! Text as bytes.
use vstd::prelude::*;
use vstd::utf8::{encode_scalar, encode_utf8};

use crate::strings::decimal;

verus! {

/// A text in UTF-8.
pub open spec fn utf8(s: Seq<char>) -> Seq<u8> {
    encode_utf8(s)
}

/// A number in decimal, as bytes.
pub open spec fn number_bytes(n: nat) -> Seq<u8> {
    utf8(decimal(n))
}

/// Two texts joined are their bytes joined.
pub proof fn lemma_utf8_concat(a: Seq<char>, b: Seq<char>)
    ensures
        utf8(a + b) == utf8(a) + utf8(b),
    decreases a.len(),
{
    if a.len() == 0 {
        assert(a + b =~= b);
        assert(utf8(a) + utf8(b) =~= utf8(b));
    } else {
        lemma_utf8_concat(a.drop_first(), b);
        assert((a + b).drop_first() =~= a.drop_first() + b);
        assert((a + b)[0] == a[0]);
        assert(encode_scalar(a[0] as u32) + (utf8(a.drop_first()) + utf8(b)) =~= (encode_scalar(
            a[0] as u32,
        ) + utf8(a.drop_first())) + utf8(b));
    }
}

/// Add bytes to what has been written.
pub fn push_bytes(out: &mut Vec<u8>, more: &[u8])
    ensures
        final(out)@ == old(out)@ + more@,
{
    let ghost before = out@;
    let mut i: usize = 0;
    while i < more.len()
        invariant
            i <= more@.len(),
            out@ == before + more@.take(i as int),
        decreases more@.len() - i,
    {
        out.push(more[i]);
        i += 1;
        proof {
            assert(before + more@.take(i as int) =~= (before + more@.take(i - 1)).push(
                more@[i - 1],
            ));
        }
    }
    proof {
        assert(more@.take(i as int) =~= more@);
    }
}

/// Add a text to what has been written.
pub fn push_text(out: &mut Vec<u8>, text: &str)
    ensures
        final(out)@ == old(out)@ + utf8(text@),
{
    push_bytes(out, text.as_bytes());
}

/// Add a number, in decimal, to what has been written.
pub fn push_number(out: &mut Vec<u8>, n: u64)
    ensures
        final(out)@ == old(out)@ + number_bytes(n as nat),
{
    push_text(out, crate::strings::decimal_string(n).as_str());
}

}
