//! Bytes as text that no terminal can be spoken to in.
use vstd::prelude::*;

verus! {

/// The letter of a number below sixty-four.
pub open spec fn letter(n: int) -> u8 {
    if n < 26 {
        (65 + n) as u8
    } else if n < 52 {
        (71 + n) as u8
    } else if n < 62 {
        (n - 4) as u8
    } else if n == 62 {
        43
    } else {
        47
    }
}

/// The number that a letter stands for, when it is one.
pub open spec fn letter_value(b: u8) -> Option<int> {
    if 65 <= b <= 90 {
        Some(b - 65)
    } else if 97 <= b <= 122 {
        Some(b - 71)
    } else if 48 <= b <= 57 {
        Some(b + 4)
    } else if b == 43 {
        Some(62)
    } else if b == 47 {
        Some(63)
    } else {
        None
    }
}

/// Bytes in base64: four letters for each three bytes, the last of them
/// padded.
pub open spec fn encoded(b: Seq<u8>) -> Seq<u8>
    decreases b.len(),
{
    if b.len() == 0 {
        Seq::empty()
    } else if b.len() == 1 {
        seq![letter(b[0] as int / 4), letter((b[0] as int % 4) * 16), 61u8, 61u8]
    } else if b.len() == 2 {
        seq![
            letter(b[0] as int / 4),
            letter((b[0] as int % 4) * 16 + b[1] as int / 16),
            letter((b[1] as int % 16) * 4),
            61u8,
        ]
    } else {
        seq![
            letter(b[0] as int / 4),
            letter((b[0] as int % 4) * 16 + b[1] as int / 16),
            letter((b[1] as int % 16) * 4 + b[2] as int / 64),
            letter(b[2] as int % 64),
        ] + encoded(b.skip(3))
    }
}

/// `r` with some bytes before it.
pub open spec fn after_bytes(before: Seq<u8>, r: Option<Seq<u8>>) -> Option<Seq<u8>> {
    match r {
        Some(rest) => Some(before + rest),
        None => None,
    }
}

/// The bytes that four letters are, when they are all letters.
pub open spec fn three(a: u8, b: u8, c: u8, d: u8) -> Option<Seq<u8>> {
    match (letter_value(a), letter_value(b), letter_value(c), letter_value(d)) {
        (Some(a), Some(b), Some(c), Some(d)) => Some(
            seq![(a * 4 + b / 16) as u8, ((b % 16) * 16 + c / 4) as u8, ((c % 4) * 64 + d) as u8],
        ),
        _ => None,
    }
}

/// The bytes that the last four characters are: they may be padded.
pub open spec fn last_few(a: u8, b: u8, c: u8, d: u8) -> Option<Seq<u8>> {
    if d != 61 {
        three(a, b, c, d)
    } else if c != 61 {
        match (letter_value(a), letter_value(b), letter_value(c)) {
            (Some(a), Some(b), Some(c)) => Some(
                seq![(a * 4 + b / 16) as u8, ((b % 16) * 16 + c / 4) as u8],
            ),
            _ => None,
        }
    } else {
        match (letter_value(a), letter_value(b)) {
            (Some(a), Some(b)) => Some(seq![(a * 4 + b / 16) as u8]),
            _ => None,
        }
    }
}

/// The bytes that some base64 is, when it is base64.
pub open spec fn decoded(s: Seq<u8>) -> Option<Seq<u8>>
    decreases s.len(),
{
    if s.len() == 0 {
        Some(Seq::empty())
    } else if s.len() < 4 {
        None
    } else if s.len() == 4 {
        last_few(s[0], s[1], s[2], s[3])
    } else {
        match three(s[0], s[1], s[2], s[3]) {
            Some(bytes) => after_bytes(bytes, decoded(s.skip(4))),
            None => None,
        }
    }
}

/// A letter stands for its number, and is not the padding.
proof fn lemma_letter(n: int)
    requires
        0 <= n < 64,
    ensures
        letter_value(letter(n)) == Some(n),
        letter(n) != 61,
{
}

/// Three bytes come back from their four letters.
proof fn lemma_three(a: u8, b: u8, c: u8)
    ensures
        ({
            let w = letter(a as int / 4);
            let x = letter((a as int % 4) * 16 + b as int / 16);
            let y = letter((b as int % 16) * 4 + c as int / 64);
            let z = letter(c as int % 64);
            three(w, x, y, z) == Some(seq![a, b, c]) && z != 61
        }),
{
    lemma_letter(a as int / 4);
    lemma_letter((a as int % 4) * 16 + b as int / 16);
    lemma_letter((b as int % 16) * 4 + c as int / 64);
    lemma_letter(c as int % 64);
    let r = three(
        letter(a as int / 4),
        letter((a as int % 4) * 16 + b as int / 16),
        letter((b as int % 16) * 4 + c as int / 64),
        letter(c as int % 64),
    );
    assert(r->0 =~= seq![a, b, c]);
}

/// Two bytes come back from their three letters and the padding.
proof fn lemma_two(a: u8, b: u8)
    ensures
        last_few(
            letter(a as int / 4),
            letter((a as int % 4) * 16 + b as int / 16),
            letter((b as int % 16) * 4),
            61,
        ) == Some(seq![a, b]),
{
    lemma_letter(a as int / 4);
    lemma_letter((a as int % 4) * 16 + b as int / 16);
    lemma_letter((b as int % 16) * 4);
    let r = last_few(
        letter(a as int / 4),
        letter((a as int % 4) * 16 + b as int / 16),
        letter((b as int % 16) * 4),
        61,
    );
    assert(r->0 =~= seq![a, b]);
}

/// One byte comes back from its two letters and the padding.
proof fn lemma_one(a: u8)
    ensures
        last_few(letter(a as int / 4), letter((a as int % 4) * 16), 61, 61) == Some(seq![a]),
{
    lemma_letter(a as int / 4);
    lemma_letter((a as int % 4) * 16);
    let r = last_few(letter(a as int / 4), letter((a as int % 4) * 16), 61, 61);
    assert(r->0 =~= seq![a]);
}

/// What was encoded decodes to what it was.
pub proof fn law_decoding_undoes_encoding(b: Seq<u8>)
    ensures
        decoded(encoded(b)) == Some(b),
    decreases b.len(),
{
    if b.len() == 0 {
        assert(b =~= Seq::empty());
    } else if b.len() == 1 {
        lemma_one(b[0]);
        assert(seq![b[0]] =~= b);
    } else if b.len() == 2 {
        lemma_two(b[0], b[1]);
        assert(seq![b[0], b[1]] =~= b);
    } else {
        let rest = b.skip(3);
        let e = encoded(b);
        law_decoding_undoes_encoding(rest);
        lemma_encoded_len(rest);
        lemma_three(b[0], b[1], b[2]);
        assert(e.skip(4) =~= encoded(rest));
        assert(seq![b[0], b[1], b[2]] + rest =~= b);
        if rest.len() == 0 {
            assert(e.len() == 4);
            assert(seq![b[0], b[1], b[2]] =~= b);
        }
    }
}

/// Base64 is four characters for each three bytes or part of them.
pub proof fn lemma_encoded_len(b: Seq<u8>)
    ensures
        encoded(b).len() == (b.len() + 2) / 3 * 4,
    decreases b.len(),
{
    if b.len() >= 3 {
        lemma_encoded_len(b.skip(3));
    }
}

/// A character of base64: a letter or the padding.
pub open spec fn is_base64(b: u8) -> bool {
    letter_value(b) is Some || b == 61
}

/// Base64 is letters, digits, `+`, `/` and `=`, and nothing else.
pub proof fn law_base64_is_plain(b: Seq<u8>)
    ensures
        forall|i: int| 0 <= i < encoded(b).len() ==> is_base64(#[trigger] encoded(b)[i]),
    decreases b.len(),
{
    if b.len() >= 3 {
        law_base64_is_plain(b.skip(3));
        let e = encoded(b);
        assert forall|i: int| 0 <= i < e.len() implies is_base64(#[trigger] e[i]) by {
            if i >= 4 {
                assert(e[i] == encoded(b.skip(3))[i - 4]);
            }
        }
    }
}

/// The letter of a number below sixty-four.
fn letter_of(n: u8) -> (r: u8)
    requires
        n < 64,
    ensures
        r == letter(n as int),
{
    if n < 26 {
        65 + n
    } else if n < 52 {
        71 + n
    } else if n < 62 {
        n - 4
    } else if n == 62 {
        43
    } else {
        47
    }
}

/// Bytes in base64.
pub fn encode(bytes: &[u8]) -> (r: Vec<u8>)
    ensures
        r@ == encoded(bytes@),
{
    let mut out: Vec<u8> = Vec::new();
    let mut i: usize = 0;
    proof {
        assert(bytes@.skip(0) =~= bytes@);
        assert(out@ + encoded(bytes@) =~= encoded(bytes@));
    }
    while bytes.len() - i >= 3
        invariant
            i <= bytes@.len(),
            encoded(bytes@) == out@ + encoded(bytes@.skip(i as int)),
        decreases bytes@.len() - i,
    {
        let a: u8 = bytes[i];
        let b: u8 = bytes[i + 1];
        let c: u8 = bytes[i + 2];
        let ghost rest = bytes@.skip(i as int);
        let ghost before = out@;
        out.push(letter_of(a / 4));
        out.push(letter_of((a % 4) * 16 + b / 16));
        out.push(letter_of((b % 16) * 4 + c / 64));
        out.push(letter_of(c % 64));
        proof {
            assert(rest[0] == a && rest[1] == b && rest[2] == c);
            assert(rest.skip(3) =~= bytes@.skip(i + 3));
            assert(out@ + encoded(rest.skip(3)) =~= before + encoded(rest));
        }
        i += 3;
    }
    let ghost rest = bytes@.skip(i as int);
    let ghost before = out@;
    if bytes.len() - i == 1 {
        let a: u8 = bytes[i];
        out.push(letter_of(a / 4));
        out.push(letter_of((a % 4) * 16));
        out.push(61);
        out.push(61);
        proof {
            assert(rest[0] == a);
            assert(out@ =~= before + encoded(rest));
        }
    } else if bytes.len() - i == 2 {
        let a: u8 = bytes[i];
        let b: u8 = bytes[i + 1];
        out.push(letter_of(a / 4));
        out.push(letter_of((a % 4) * 16 + b / 16));
        out.push(letter_of((b % 16) * 4));
        out.push(61);
        proof {
            assert(rest[0] == a && rest[1] == b);
            assert(out@ =~= before + encoded(rest));
        }
    } else {
        proof {
            assert(out@ =~= before + encoded(rest));
        }
    }
    out
}

/// The number that a letter stands for: sixty-four for none.
fn value_of(b: u8) -> (r: u8)
    ensures
        match letter_value(b) {
            Some(n) => r == n && r < 64,
            None => r == 64,
        },
{
    if 65 <= b && b <= 90 {
        b - 65
    } else if 97 <= b && b <= 122 {
        b - 71
    } else if 48 <= b && b <= 57 {
        b + 4
    } else if b == 43 {
        62
    } else if b == 47 {
        63
    } else {
        64
    }
}

/// The bytes that some base64 is, when it is base64.
pub fn decode(s: &[u8]) -> (r: Option<Vec<u8>>)
    ensures
        match r {
            Some(bytes) => decoded(s@) == Some(bytes@),
            None => decoded(s@) is None,
        },
{
    let mut out: Vec<u8> = Vec::new();
    let mut i: usize = 0;
    proof {
        assert(s@.skip(0) =~= s@);
        if decoded(s@) is Some {
            assert(out@ + decoded(s@)->0 =~= decoded(s@)->0);
        }
    }
    while i < s.len()
        invariant
            i <= s@.len(),
            decoded(s@) == after_bytes(out@, decoded(s@.skip(i as int))),
        decreases s@.len() - i,
    {
        let ghost rest = s@.skip(i as int);
        let ghost before = out@;
        let left: usize = s.len() - i;
        if left < 4 {
            return None;
        }
        let a = value_of(s[i]);
        let b = value_of(s[i + 1]);
        let c = value_of(s[i + 2]);
        let d = value_of(s[i + 3]);
        proof {
            assert(rest[0] == s@[i as int] && rest[1] == s@[i + 1] && rest[2] == s@[i + 2]
                && rest[3] == s@[i + 3]);
            assert(rest.skip(4) =~= s@.skip(i + 4));
        }
        if a == 64 || b == 64 {
            return None;
        }
        if left == 4 && s[i + 3] == 61 {
            if s[i + 2] == 61 {
                out.push(a * 4 + b / 16);
            } else if c == 64 {
                return None;
            } else {
                out.push(a * 4 + b / 16);
                out.push((b % 16) * 16 + c / 4);
            }
            proof {
                assert(out@ =~= before + decoded(rest)->0);
            }
            return Some(out);
        }
        if c == 64 || d == 64 {
            return None;
        }
        out.push(a * 4 + b / 16);
        out.push((b % 16) * 16 + c / 4);
        out.push((c % 4) * 64 + d);
        proof {
            let first = three(rest[0], rest[1], rest[2], rest[3])->0;
            assert(out@ =~= before + first);
            if left == 4 {
                assert(rest.skip(4) =~= Seq::empty());
                assert(before + first =~= out@ + Seq::<u8>::empty());
            } else {
                let more = decoded(rest.skip(4));
                if more is Some {
                    assert(before + (first + more->0) =~= out@ + more->0);
                }
            }
        }
        i += 4;
    }
    proof {
        assert(out@ + Seq::<u8>::empty() =~= out@);
    }
    Some(out)
}

/// The letters are those of the standard alphabet, in its order.
pub proof fn law_the_letters_are_the_standard_ones(n: int)
    requires
        0 <= n < 64,
    ensures
        letter(n) == "ABCDEFGHIJKLMNOPQRSTUVWXYZabcdefghijklmnopqrstuvwxyz0123456789+/"@[n] as u8,
        letter_value(letter(n)) == Some(n),
{
    reveal_strlit("ABCDEFGHIJKLMNOPQRSTUVWXYZabcdefghijklmnopqrstuvwxyz0123456789+/");
}

/// Three bytes are one number, and its four sixes of bits are the four letters,
/// the highest first; what is left over at the end is filled up with nought and
/// marked.
pub proof fn law_three_bytes_are_four_letters(a: u8, b: u8, c: u8, rest: Seq<u8>)
    ensures
        ({
            let n = a as int * 65536 + b as int * 256 + c as int;
            encoded(seq![a, b, c] + rest) == seq![
                letter(n / 262144),
                letter(n / 4096 % 64),
                letter(n / 64 % 64),
                letter(n % 64),
            ] + encoded(rest)
        }),
        encoded(seq![a]) == seq![
            letter(a as int * 65536 / 262144),
            letter(a as int * 65536 / 4096 % 64),
            0x3du8,
            0x3du8,
        ],
        ({
            let n = a as int * 65536 + b as int * 256;
            encoded(seq![a, b]) == seq![
                letter(n / 262144),
                letter(n / 4096 % 64),
                letter(n / 64 % 64),
                0x3du8,
            ]
        }),
        encoded(Seq::empty()).len() == 0,
{
    let s = seq![a, b, c] + rest;
    assert(s[0] == a && s[1] == b && s[2] == c);
    assert(s.skip(3) =~= rest);
    lemma_sixes(a, b, c);
    lemma_sixes(a, b, 0);
    lemma_sixes(a, 0, 0);
    assert(encoded(s) == seq![
        letter(a as int / 4),
        letter((a as int % 4) * 16 + b as int / 16),
        letter((b as int % 16) * 4 + c as int / 64),
        letter(c as int % 64),
    ] + encoded(rest));
}

/// The sixes of bits of three bytes.
proof fn lemma_sixes(a: u8, b: u8, c: u8)
    ensures
        ({
            let n = a as int * 65536 + b as int * 256 + c as int;
            &&& n / 262144 == a as int / 4
            &&& n / 4096 % 64 == (a as int % 4) * 16 + b as int / 16
            &&& n / 64 % 64 == (b as int % 16) * 4 + c as int / 64
            &&& n % 64 == c as int % 64
        }),
{
    let n = a as int * 65536 + b as int * 256 + c as int;
    let (a4, b16, c64) = (a as int / 4, b as int / 16, c as int / 64);
    let (ar, br, cr) = (a as int % 4, b as int % 16, c as int % 64);
    assert(n == 262144 * a4 + (65536 * ar + 256 * b as int + c as int));
    assert(n / 262144 == a4);
    let second = 16 * a as int + b16;
    assert(n == 4096 * second + (256 * br + c as int));
    assert(n / 4096 == second);
    assert(second == 64 * a4 + (16 * ar + b16));
    assert(second % 64 == 16 * ar + b16);
    let third = 1024 * a as int + 4 * b as int + c64;
    assert(n == 64 * third + cr);
    assert(n / 64 == third && n % 64 == cr);
    assert(third == 64 * (16 * a as int + b16) + (4 * br + c64));
    assert(third % 64 == 4 * br + c64);
}

}
