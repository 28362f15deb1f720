//! Paths as text: joining them, and saying them as a person would.
//!
//! The names of a path are what stands between its slashes, but for nothing and
//! for a single dot.
use vstd::prelude::*;

use crate::strings::{
    char_lists, chars_of, copied, is_word, pieces, same_chars, split, string_of,
};

verus! {

/// A path from the root.
pub open spec fn is_absolute(path: Seq<char>) -> bool {
    path.len() > 0 && path[0] == '/'
}

/// Whether a path is from the root.
pub fn absolute(path: &str) -> (r: bool)
    ensures
        r == is_absolute(path@),
{
    let chars = chars_of(path);
    chars.len() > 0 && chars[0] == '/'
}

/// A path below another: the other itself when it is absolute.
pub open spec fn joined(dir: Seq<char>, name: Seq<char>) -> Seq<char> {
    if is_absolute(name) {
        name
    } else if dir.len() > 0 && dir.last() != '/' {
        dir + "/"@ + name
    } else {
        dir + name
    }
}

/// A path below another.
pub fn join(dir: &str, name: &str) -> (r: String)
    ensures
        r@ == joined(dir@, name@),
{
    if absolute(name) {
        return name.to_owned();
    }
    let chars = chars_of(dir);
    let mut out = dir.to_owned();
    if chars.len() > 0 && chars[chars.len() - 1] != '/' {
        out.append("/");
    }
    out.append(name);
    out
}

/// A piece of a path that is a name.
pub open spec fn is_name(piece: Seq<char>) -> bool {
    piece.len() > 0 && piece != "."@
}

/// The names among some pieces.
pub open spec fn names_among(parts: Seq<Seq<char>>) -> Seq<Seq<char>>
    decreases parts.len(),
{
    if parts.len() == 0 {
        Seq::empty()
    } else if is_name(parts.last()) {
        names_among(parts.drop_last()).push(parts.last())
    } else {
        names_among(parts.drop_last())
    }
}

/// The names of a path.
pub open spec fn names(path: Seq<char>) -> Seq<Seq<char>> {
    names_among(pieces(path, '/'))
}

/// Two absolute paths are of one place.
pub open spec fn same_place(a: Seq<char>, b: Seq<char>) -> bool {
    is_absolute(a) == is_absolute(b) && names(a) == names(b)
}

/// Whether a piece of a path is a name.
fn piece_is_name(piece: &[char]) -> (r: bool)
    ensures
        r == is_name(piece@),
{
    piece.len() > 0 && !is_word(piece, ".")
}

/// The names of a path.
fn names_of(path: &str) -> (r: Vec<Vec<char>>)
    ensures
        char_lists(r@) == names(path@),
{
    let chars = chars_of(path);
    let parts = split(chars.as_slice(), '/');
    let ghost all = pieces(path@, '/');
    let mut out: Vec<Vec<char>> = Vec::new();
    let mut i: usize = 0;
    proof {
        assert(all.take(0) =~= Seq::<Seq<char>>::empty());
        assert(char_lists(out@) =~= Seq::<Seq<char>>::empty());
    }
    while i < parts.len()
        invariant
            i <= parts@.len(),
            all == char_lists(parts@),
            char_lists(out@) == names_among(all.take(i as int)),
        decreases parts@.len() - i,
    {
        proof {
            assert(all.take(i + 1).drop_last() =~= all.take(i as int));
            assert(all.take(i + 1).last() == parts@[i as int]@);
        }
        if piece_is_name(parts[i].as_slice()) {
            let ghost before = char_lists(out@);
            let piece = copied(parts[i].as_slice());
            out.push(piece);
            proof {
                assert(char_lists(out@) =~= before.push(piece@));
            }
        }
        i += 1;
    }
    proof {
        assert(all.take(i as int) =~= all);
    }
    out
}

/// Whether `front` stands at the front of `whole`.
fn stands_first(front: &Vec<Vec<char>>, whole: &Vec<Vec<char>>) -> (r: bool)
    ensures
        r == (front@.len() <= whole@.len() && char_lists(whole@).take(front@.len() as int)
            == char_lists(front@)),
{
    if front.len() > whole.len() {
        return false;
    }
    let mut i: usize = 0;
    while i < front.len()
        invariant
            i <= front@.len() <= whole@.len(),
            forall|k: int| 0 <= k < i ==> #[trigger] char_lists(front@)[k] == char_lists(whole@)[k],
        decreases front@.len() - i,
    {
        if !same_chars(front[i].as_slice(), whole[i].as_slice()) {
            proof {
                assert(char_lists(front@)[i as int] != char_lists(whole@)[i as int]);
                assert(char_lists(whole@).take(front@.len() as int)[i as int] == char_lists(
                    whole@,
                )[i as int]);
            }
            return false;
        }
        i += 1;
    }
    proof {
        assert(char_lists(whole@).take(front@.len() as int) =~= char_lists(front@));
    }
    true
}

/// Whether two absolute paths are of one place.
pub fn is_same_place(a: &str, b: &str) -> (r: bool)
    ensures
        r == same_place(a@, b@),
{
    let x = names_of(a);
    let y = names_of(b);
    let front = stands_first(&x, &y);
    proof {
        assert(char_lists(x@).len() == x@.len());
        assert(char_lists(y@).len() == y@.len());
        if x@.len() == y@.len() {
            assert(char_lists(y@).take(x@.len() as int) =~= char_lists(y@));
        }
    }
    absolute(a) == absolute(b) && x.len() == y.len() && front
}

/// The pieces after the first `k` names.
pub open spec fn after_names(parts: Seq<Seq<char>>, k: int) -> Seq<Seq<char>>
    decreases parts.len(),
{
    if k <= 0 || parts.len() == 0 {
        parts
    } else if is_name(parts[0]) {
        after_names(parts.drop_first(), k - 1)
    } else {
        after_names(parts.drop_first(), k)
    }
}

/// The pieces from the first name on.
pub open spec fn from_a_name(parts: Seq<Seq<char>>) -> Seq<Seq<char>>
    decreases parts.len(),
{
    if parts.len() > 0 && !is_name(parts[0]) {
        from_a_name(parts.drop_first())
    } else {
        parts
    }
}

/// The pieces up to the last name.
pub open spec fn to_a_name(parts: Seq<Seq<char>>) -> Seq<Seq<char>>
    decreases parts.len(),
{
    if parts.len() > 0 && !is_name(parts.last()) {
        to_a_name(parts.drop_last())
    } else {
        parts
    }
}

/// Pieces with slashes between.
pub open spec fn with_slashes(parts: Seq<Seq<char>>) -> Seq<char>
    decreases parts.len(),
{
    if parts.len() == 0 {
        Seq::empty()
    } else if parts.len() == 1 {
        parts[0]
    } else {
        with_slashes(parts.drop_last()) + "/"@ + parts.last()
    }
}

/// What is left of a path below its first `k` names.
pub open spec fn below(path: Seq<char>, k: int) -> Seq<char> {
    with_slashes(to_a_name(from_a_name(after_names(pieces(path, '/'), k))))
}

/// A path as a person would say it: with a tilde for their home, when it is
/// there and is not the root.
pub open spec fn tilded(path: Seq<char>, home: Option<Seq<char>>) -> Seq<char> {
    match home {
        Some(home) => {
            let n = names(home).len() as int;
            if is_absolute(home) && n > 0 && is_absolute(path) && n <= names(path).len() && names(
                path,
            ).take(n) == names(home) {
                if below(path, n).len() == 0 {
                    "~"@
                } else {
                    "~/"@ + below(path, n)
                }
            } else {
                path
            }
        },
        None => path,
    }
}

/// Pieces with slashes between, from one place to another.
fn slashed(parts: &Vec<Vec<char>>, from: usize, to: usize) -> (r: Vec<char>)
    requires
        from <= to <= parts@.len(),
    ensures
        r@ == with_slashes(char_lists(parts@).subrange(from as int, to as int)),
{
    let ghost all = char_lists(parts@);
    let mut out: Vec<char> = Vec::new();
    let mut i: usize = from;
    proof {
        assert(all.subrange(from as int, from as int) =~= Seq::<Seq<char>>::empty());
    }
    while i < to
        invariant
            from <= i <= to <= parts@.len(),
            all == char_lists(parts@),
            out@ == with_slashes(all.subrange(from as int, i as int)),
        decreases to - i,
    {
        if i > from {
            out.push('/');
        }
        let mut piece = copied(parts[i].as_slice());
        let ghost so_far = all.subrange(from as int, i as int);
        let ghost now = all.subrange(from as int, i + 1);
        proof {
            reveal_strlit("/");
            assert(now.drop_last() =~= so_far);
            assert(now.last() == parts@[i as int]@);
        }
        out.append(&mut piece);
        proof {
            assert(out@ =~= with_slashes(now));
        }
        i += 1;
    }
    out
}

/// What is left of a path below its first `k` names.
fn path_below(path: &str, k: usize) -> (r: Vec<char>)
    ensures
        r@ == below(path@, k as int),
{
    let chars = chars_of(path);
    let parts = split(chars.as_slice(), '/');
    let ghost all = char_lists(parts@);
    let mut from: usize = 0;
    let mut left: usize = k;
    proof {
        assert(all.skip(0) =~= all);
    }
    while left > 0 && from < parts.len()
        invariant
            from <= parts@.len(),
            all == char_lists(parts@),
            after_names(all, k as int) == after_names(all.skip(from as int), left as int),
        decreases parts@.len() - from,
    {
        proof {
            assert(all.skip(from as int)[0] == parts@[from as int]@);
            assert(all.skip(from as int).drop_first() =~= all.skip(from + 1));
        }
        if piece_is_name(parts[from].as_slice()) {
            left -= 1;
        }
        from += 1;
    }
    let ghost rest = all.skip(from as int);
    while from < parts.len() && !piece_is_name(parts[from].as_slice())
        invariant
            from <= parts@.len(),
            all == char_lists(parts@),
            from_a_name(rest) == from_a_name(all.skip(from as int)),
        decreases parts@.len() - from,
    {
        proof {
            assert(all.skip(from as int)[0] == parts@[from as int]@);
            assert(all.skip(from as int).drop_first() =~= all.skip(from + 1));
        }
        from += 1;
    }
    proof {
        if from < parts@.len() {
            assert(all.skip(from as int)[0] == parts@[from as int]@);
        }
    }
    let ghost named = all.skip(from as int);
    let mut to: usize = parts.len();
    proof {
        assert(all.subrange(from as int, to as int) =~= named);
    }
    while to > from && !piece_is_name(parts[to - 1].as_slice())
        invariant
            from <= to <= parts@.len(),
            all == char_lists(parts@),
            to_a_name(named) == to_a_name(all.subrange(from as int, to as int)),
        decreases to,
    {
        proof {
            let s = all.subrange(from as int, to as int);
            assert(s.last() == parts@[to - 1]@);
            assert(s.drop_last() =~= all.subrange(from as int, to - 1));
        }
        to -= 1;
    }
    proof {
        let s = all.subrange(from as int, to as int);
        if to > from {
            assert(s.last() == parts@[to - 1]@);
        }
        assert(to_a_name(named) == s);
    }
    slashed(&parts, from, to)
}

/// A path as a person would say it: with a tilde for their home.
pub fn with_tilde(path: &str, home: Option<&str>) -> (r: String)
    ensures
        r@ == tilded(
            path@,
            match home {
                Some(h) => Some(h@),
                None => None,
            },
        ),
{
    let home = match home {
        Some(h) => h,
        None => return path.to_owned(),
    };
    let above = names_of(home);
    let whole = names_of(path);
    proof {
        assert(char_lists(above@).len() == above@.len());
        assert(char_lists(whole@).len() == whole@.len());
    }
    if !absolute(home) || above.len() == 0 || !absolute(path) || !stands_first(&above, &whole) {
        return path.to_owned();
    }
    let rest = path_below(path, above.len());
    if rest.len() == 0 {
        return "~".to_owned();
    }
    let mut out = "~/".to_owned();
    out.append(string_of(rest.as_slice()).as_str());
    out
}

/// The name of the file at a path: none when there is no name, or the last is
/// the directory above.
pub open spec fn file_name(path: Seq<char>) -> Option<Seq<char>> {
    if names(path).len() == 0 || names(path).last() == ".."@ {
        None
    } else {
        Some(names(path).last())
    }
}

/// The name of the file at a path; empty when it has none.
pub fn file_name_of(path: &str) -> (r: String)
    ensures
        r@ == (match file_name(path@) {
            Some(name) => name,
            None => Seq::empty(),
        }),
{
    let all = names_of(path);
    proof {
        assert(char_lists(all@).len() == all@.len());
    }
    if all.len() == 0 {
        return String::new();
    }
    let last = all[all.len() - 1].as_slice();
    if is_word(last, "..") {
        return String::new();
    }
    string_of(last)
}

/// A name is put behind its directory with one slash between them, and a path from
/// the root is itself.
pub proof fn law_a_name_goes_behind_its_directory(dir: Seq<char>, name: Seq<char>)
    requires
        name.len() > 0 && name[0] != '/',
        dir.len() > 0 && dir.last() != '/',
    ensures
        joined(dir, name) == dir + seq!['/'] + name,
        joined(dir + seq!['/'], name) == dir + seq!['/'] + name,
        joined(Seq::empty(), name) == name,
        joined(dir, seq!['/'] + name) == seq!['/'] + name,
{
    reveal_strlit("/");
    assert("/"@ =~= seq!['/']);
    assert((dir + seq!['/']).last() == '/');
    assert(Seq::<char>::empty() + name =~= name);
    assert((seq!['/'] + name)[0] == '/');
}

}
