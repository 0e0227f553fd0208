//! Paths with the home directory folded to `~`.
use vstd::prelude::*;

use crate::text::{chars_of, text_of};

verus! {

/// A character of a path, with `/` for either separator.
pub open spec fn forward(c: char) -> char {
    if c == '\\' {
        '/'
    } else {
        c
    }
}

/// A path with `/` as its only separator.
pub open spec fn normalized(path: Seq<char>) -> Seq<char> {
    path.map_values(|c: char| forward(c))
}

/// The lower-case form of an ASCII letter; any other character is left as it is.
pub open spec fn ascii_lower(c: char) -> char {
    if 'A' <= c <= 'Z' {
        (c as int + 32) as char
    } else {
        c
    }
}

/// `path` starts with `start`, whatever the case of ASCII letters.
pub open spec fn starts_like(path: Seq<char>, start: Seq<char>) -> bool {
    &&& start.len() <= path.len()
    &&& forall|i: int|
        0 <= i < start.len() ==> ascii_lower(#[trigger] path[i]) == ascii_lower(start[i])
}

/// A path with the home directory at its start folded to `~`, and `/` as its only
/// separator. A directory whose name only starts like the home directory's is no part of it.
pub open spec fn shortened(path: Seq<char>, home: Option<Seq<char>>) -> Seq<char> {
    let path = normalized(path);
    match home {
        Some(home) => {
            let home = normalized(home);
            let rest = path.skip(home.len() as int);
            if home.len() > 0 && starts_like(path, home) && (rest.len() == 0 || rest[0] == '/') {
                seq!['~'] + rest
            } else {
                path
            }
        },
        None => path,
    }
}

/// The characters of a path, with `/` as its only separator.
fn normalize(path: &str) -> (r: Vec<char>)
    ensures
        r@ == normalized(path@),
{
    let chars = chars_of(path);
    let mut r: Vec<char> = Vec::new();
    let mut i: usize = 0;
    while i < chars.len()
        invariant
            i <= chars.len(),
            chars@ == path@,
            r@ == normalized(path@).take(i as int),
        decreases chars.len() - i,
    {
        if chars[i] == '\\' {
            r.push('/');
        } else {
            r.push(chars[i]);
        }
        i += 1;
    }
    r
}

/// The lower-case form of an ASCII letter.
fn lower(c: char) -> (r: char)
    ensures
        r == ascii_lower(c),
{
    if 'A' <= c && c <= 'Z' {
        ((c as u8) + 32) as char
    } else {
        c
    }
}

/// Whether a path starts with `start`, whatever the case of ASCII letters.
fn starts_with_ignoring_case(path: &[char], start: &[char]) -> (r: bool)
    ensures
        r == starts_like(path@, start@),
{
    if start.len() > path.len() {
        return false;
    }
    let mut i: usize = 0;
    while i < start.len()
        invariant
            i <= start.len() <= path.len(),
            forall|j: int|
                0 <= j < i ==> ascii_lower(#[trigger] path@[j]) == ascii_lower(start@[j]),
        decreases start.len() - i,
    {
        if lower(path[i]) != lower(start[i]) {
            assert(ascii_lower(path@[i as int]) != ascii_lower(start@[i as int]));
            return false;
        }
        i += 1;
    }
    true
}

/// Folds the home directory at the start of a path to `~`.
pub fn shorten_home(path: &str, home: Option<&str>) -> (r: String)
    ensures
        r@ == shortened(
            path@,
            match home {
                Some(home) => Some(home@),
                None => None,
            },
        ),
{
    let path = normalize(path);
    if let Some(home) = home {
        let home = normalize(home);
        if home.len() > 0 && starts_with_ignoring_case(path.as_slice(), home.as_slice()) {
            let (start, rest) = path.as_slice().split_at(home.len());
            assert(rest@ == path@.skip(home@.len() as int));
            if rest.len() == 0 || rest[0] == '/' {
                let mut short = String::new();
                short.push('~');
                short.push_str(text_of(rest).as_str());
                assert(short@ == seq!['~'] + rest@);
                return short;
            }
        }
    }
    text_of(path.as_slice())
}

/// What stands below the home directory is shown below `~`.
pub proof fn below_home(home: Seq<char>, rest: Seq<char>)
    requires
        home.len() > 0,
    ensures
        shortened(home + seq!['/'] + rest, Some(home)) == seq!['~', '/'] + normalized(rest),
{
    let path = normalized(home + seq!['/'] + rest);
    let start = normalized(home);
    assert(path.skip(start.len() as int) == seq!['/'] + normalized(rest));
    assert(starts_like(path, start)) by {
        assert forall|i: int| 0 <= i < start.len() implies ascii_lower(#[trigger] path[i])
            == ascii_lower(start[i]) by {
            assert(path[i] == start[i]);
        }
    }
    assert(seq!['~'] + (seq!['/'] + normalized(rest)) == seq!['~', '/'] + normalized(rest));
}

/// The home directory itself is shown as `~`.
pub proof fn home_itself(home: Seq<char>)
    requires
        home.len() > 0,
    ensures
        shortened(home, Some(home)) == seq!['~'],
{
    let start = normalized(home);
    assert(start.skip(start.len() as int) == Seq::<char>::empty());
    assert(seq!['~'] + Seq::<char>::empty() == seq!['~']);
}

/// A directory whose name goes on behind the home directory's is not folded.
pub proof fn beside_home(home: Seq<char>, c: char, rest: Seq<char>)
    requires
        c != '/',
        c != '\\',
    ensures
        shortened(home + seq![c] + rest, Some(home)) == normalized(home + seq![c] + rest),
{
    let path = normalized(home + seq![c] + rest);
    assert(path.skip(home.len() as int)[0] == c);
}

/// The separators and the case of the home directory's letters do not matter.
pub proof fn spelling_of_home_does_not_matter(
    path: Seq<char>,
    other_path: Seq<char>,
    home: Seq<char>,
    other_home: Seq<char>,
)
    requires
        normalized(path) == normalized(other_path),
        home.len() == other_home.len(),
        forall|i: int|
            0 <= i < home.len() ==> ascii_lower(forward(#[trigger] home[i])) == ascii_lower(
                forward(other_home[i]),
            ),
    ensures
        shortened(path, Some(home)) == shortened(other_path, Some(other_home)),
{
    let a = normalized(home);
    let b = normalized(other_home);
    assert forall|i: int| 0 <= i < a.len() implies ascii_lower(#[trigger] a[i]) == ascii_lower(
        b[i],
    ) by {
        assert(a[i] == forward(home[i]));
    }
    let p = normalized(path);
    assert(starts_like(p, a) == starts_like(p, b)) by {
        if starts_like(p, a) {
            assert forall|i: int| 0 <= i < b.len() implies ascii_lower(#[trigger] p[i])
                == ascii_lower(b[i]) by {
                assert(ascii_lower(a[i]) == ascii_lower(b[i]));
            }
        }
        if starts_like(p, b) {
            assert forall|i: int| 0 <= i < a.len() implies ascii_lower(#[trigger] p[i])
                == ascii_lower(a[i]) by {
                assert(ascii_lower(a[i]) == ascii_lower(b[i]));
            }
        }
    }
}

} // verus!
