//! What a terminal makes of the commands that pictures are sent in: each is what
//! stands between an opening and an end, keys first and what they are about
//! behind a semicolon.
use vstd::prelude::*;

verus! {

/// A command, as a terminal reads it.
#[verifier::ext_equal]
pub struct Order {
    pub keys: Seq<u8>,
    pub body: Seq<u8>,
}

/// Where the end of a command stands, from a place on; the length when it is not
/// there.
pub open spec fn end_at(b: Seq<u8>, from: int) -> int
    decreases b.len() - from,
{
    if from < 0 || from + 1 >= b.len() {
        b.len() as int
    } else if b[from] == 0x1b && b[from + 1] == 0x5c {
        from
    } else {
        end_at(b, from + 1)
    }
}

/// Where the first semicolon stands; the length when there is none.
pub open spec fn semicolon(b: Seq<u8>) -> int
    decreases b.len(),
{
    if b.len() == 0 || b[0] == 0x3b {
        0
    } else {
        1 + semicolon(b.drop_first())
    }
}

/// What stands between the opening and the end of a command.
pub open spec fn order_of(inside: Seq<u8>) -> Order {
    let i = semicolon(inside);
    Order {
        keys: inside.take(i),
        body: if i < inside.len() {
            inside.skip(i + 1)
        } else {
            Seq::empty()
        },
    }
}

/// The commands that some bytes are, one after the other, as far as they are any.
pub open spec fn orders(b: Seq<u8>) -> Seq<Order>
    decreases b.len(),
{
    let end = end_at(b, 3);
    if b.len() < 3 || b[0] != 0x1b || b[1] != 0x5f || b[2] != 0x47 || end < 3 || end + 2 > b.len() {
        Seq::empty()
    } else {
        seq![order_of(b.subrange(3, end))] + orders(b.skip(end + 2))
    }
}

/// What the bodies of some commands are, joined.
pub open spec fn bodies(os: Seq<Order>) -> Seq<u8>
    decreases os.len(),
{
    if os.len() == 0 {
        Seq::empty()
    } else {
        os[0].body + bodies(os.drop_first())
    }
}

/// Bytes that neither end a command nor its keys.
pub open spec fn is_clean(b: Seq<u8>) -> bool {
    forall|i: int| 0 <= i < b.len() ==> #[trigger] b[i] != 0x1b && b[i] != 0x3b
}

pub proof fn lemma_clean_joined(a: Seq<u8>, b: Seq<u8>)
    requires
        is_clean(a),
        is_clean(b),
    ensures
        is_clean(a + b),
{
    assert forall|i: int| 0 <= i < (a + b).len() implies #[trigger] (a + b)[i] != 0x1b && (a + b)[i]
        != 0x3b by {
        if i < a.len() {
            assert((a + b)[i] == a[i]);
        } else {
            assert((a + b)[i] == b[i - a.len()]);
        }
    }
}

proof fn lemma_end_at(b: Seq<u8>, from: int, end: int)
    requires
        0 <= from <= end,
        end + 1 < b.len(),
        b[end] == 0x1b && b[end + 1] == 0x5c,
        forall|i: int| from <= i < end ==> #[trigger] b[i] != 0x1b,
    ensures
        end_at(b, from) == end,
    decreases end - from,
{
    if from < end {
        assert(b[from] != 0x1b);
        lemma_end_at(b, from + 1, end);
    }
}

proof fn lemma_semicolon(keys: Seq<u8>, rest: Seq<u8>)
    requires
        is_clean(keys),
    ensures
        semicolon(keys + seq![0x3bu8] + rest) == keys.len(),
        semicolon(keys) == keys.len(),
    decreases keys.len(),
{
    let all = keys + seq![0x3bu8] + rest;
    if keys.len() == 0 {
        assert(all[0] == 0x3b);
    } else {
        assert(all[0] == keys[0]);
        assert(all.drop_first() =~= keys.drop_first() + seq![0x3bu8] + rest);
        assert forall|i: int| 0 <= i < keys.drop_first().len() implies #[trigger] keys.drop_first()[i]
            != 0x1b && keys.drop_first()[i] != 0x3b by {
            assert(keys.drop_first()[i] == keys[i + 1]);
        }
        lemma_semicolon(keys.drop_first(), rest);
    }
}

/// A command is read as its keys and its body, and what follows it is read on.
pub proof fn lemma_one_order(keys: Seq<u8>, body: Seq<u8>, rest: Seq<u8>)
    requires
        is_clean(keys),
        is_clean(body),
    ensures
        orders(
            seq![0x1bu8, 0x5f, 0x47] + keys + seq![0x3bu8] + body + seq![0x1bu8, 0x5c] + rest,
        ) == seq![Order { keys, body }] + orders(rest),
        orders(seq![0x1bu8, 0x5f, 0x47] + keys + seq![0x1bu8, 0x5c] + rest) == seq![
            Order { keys, body: Seq::empty() },
        ] + orders(rest),
{
    let inside = keys + seq![0x3bu8] + body;
    let b = seq![0x1bu8, 0x5f, 0x47] + keys + seq![0x3bu8] + body + seq![0x1bu8, 0x5c] + rest;
    let end = 3 + inside.len() as int;
    assert forall|i: int| 3 <= i < end implies #[trigger] b[i] != 0x1b by {
        if i < 3 + keys.len() {
            assert(b[i] == keys[i - 3]);
        } else if i > 3 + keys.len() {
            assert(b[i] == body[i - 4 - keys.len()]);
        }
    }
    assert(b[end] == 0x1b && b[end + 1] == 0x5c);
    lemma_end_at(b, 3, end);
    assert(b.subrange(3, end) =~= inside);
    assert(b.skip(end + 2) =~= rest);
    lemma_semicolon(keys, body);
    assert(inside.take(keys.len() as int) =~= keys);
    assert(inside.skip(keys.len() as int + 1) =~= body);
    let c = seq![0x1bu8, 0x5f, 0x47] + keys + seq![0x1bu8, 0x5c] + rest;
    let stop = 3 + keys.len() as int;
    assert forall|i: int| 3 <= i < stop implies #[trigger] c[i] != 0x1b by {
        assert(c[i] == keys[i - 3]);
    }
    assert(c[stop] == 0x1b && c[stop + 1] == 0x5c);
    lemma_end_at(c, 3, stop);
    assert(c.subrange(3, stop) =~= keys);
    assert(c.skip(stop + 2) =~= rest);
    assert(keys.take(keys.len() as int) =~= keys);
}

}
