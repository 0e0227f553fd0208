//! The file `packed-refs`: references, one per line.
use vstd::prelude::*;

use crate::hex::{hex_digit, is_sha};
use crate::refs::text_view;
use crate::text::{
    after_prefix, char_index, chars_of, index_of, same_chars, strip_prefix, text_of, trim, trimmed,
};

verus! {

/// The first line of a text, without its line ending, and what follows it.
pub open spec fn next_line(text: Seq<char>) -> (Seq<char>, Seq<char>) {
    let end = index_of(text, '\n') as int;
    if end >= text.len() {
        (text, Seq::empty())
    } else {
        let line = text.take(end);
        if line.len() > 0 && line.last() == '\r' {
            (line.drop_last(), text.skip(end + 1))
        } else {
            (line, text.skip(end + 1))
        }
    }
}

/// What a line of `packed-refs` says.
pub enum RefLine {
    /// The commit behind the annotated tag of the line before.
    Peeled(Seq<char>),
    /// The value of a reference.
    Value { value: Seq<char>, name: Seq<char> },
    /// Nothing of interest: a comment, or no reference.
    Other,
}

/// What a line of `packed-refs` says.
pub open spec fn ref_line(line: Seq<char>) -> RefLine {
    let space = index_of(line, ' ') as int;
    if line.len() > 0 && line[0] == '^' {
        RefLine::Peeled(trimmed(line.skip(1)))
    } else if line.len() > 0 && line[0] == '#' {
        RefLine::Other
    } else if space >= line.len() {
        RefLine::Other
    } else {
        RefLine::Value { value: line.take(space), name: line.skip(space + 1) }
    }
}

/// The first tag in the lines of `packed-refs` that stands for the commit `sha`: by its own
/// value, or by the line that follows it and gives the commit behind it. `pending` is the
/// tag of the line before, where that line is about a tag.
pub open spec fn packed_tag(text: Seq<char>, pending: Option<Seq<char>>, sha: Seq<char>) -> Option<
    Seq<char>,
>
    decreases text.len(),
{
    let (line, rest) = next_line(text);
    if text.len() == 0 {
        None
    } else {
        match ref_line(line) {
            RefLine::Peeled(commit) => if commit == sha && pending is Some {
                pending
            } else {
                packed_tag(rest, None, sha)
            },
            RefLine::Value { value, name } => {
                let tag = after_prefix(name, "refs/tags/"@);
                if value == sha && tag is Some {
                    tag
                } else {
                    packed_tag(rest, tag, sha)
                }
            },
            RefLine::Other => packed_tag(rest, pending, sha),
        }
    }
}

/// Splits off the first line.
fn split_line(text: &[char]) -> (r: (&[char], &[char]))
    ensures
        (r.0@, r.1@) == next_line(text@),
        text@.len() > 0 ==> r.1@.len() < text@.len(),
{
    let end = char_index(text, '\n');
    if end >= text.len() {
        let (line, rest) = text.split_at(text.len());
        assert(line@ == text@);
        assert(rest@ == Seq::<char>::empty());
        return (line, rest);
    }
    let rest = vstd::slice::slice_subrange(text, end + 1, text.len());
    assert(rest@ == text@.skip(end + 1));
    let line = vstd::slice::slice_subrange(text, 0, end);
    assert(line@ == text@.take(end as int));
    if line.len() > 0 && line[line.len() - 1] == '\r' {
        let line = vstd::slice::slice_subrange(line, 0, line.len() - 1);
        assert(line@ == text@.take(end as int).drop_last());
        (line, rest)
    } else {
        (line, rest)
    }
}

/// The view of optional characters.
spec fn chars_view(chars: Option<&[char]>) -> Option<Seq<char>> {
    match chars {
        Some(chars) => Some(chars@),
        None => None,
    }
}

/// The first tag in `packed-refs` that stands for the commit `sha`.
pub fn find_packed_tag(text: &str, sha: &str) -> (r: Option<String>)
    ensures
        text_view(r) == packed_tag(text@, None, sha@),
{
    let chars = chars_of(text);
    let wanted = chars_of(sha);
    let mut left: &[char] = chars.as_slice();
    let mut pending: Option<&[char]> = None;
    while left.len() > 0
        invariant
            wanted@ == sha@,
            packed_tag(text@, None, sha@) == packed_tag(left@, chars_view(pending), sha@),
        decreases left.len(),
    {
        let (line, rest) = split_line(left);
        left = rest;
        if line.len() > 0 && line[0] == '^' {
            let commit = vstd::slice::slice_subrange(line, 1, line.len());
            assert(commit@ == line@.skip(1));
            if same_chars(trim(commit), wanted.as_slice()) {
                if let Some(name) = pending {
                    return Some(text_of(name));
                }
            }
            pending = None;
            continue;
        }
        if line.len() > 0 && line[0] == '#' {
            continue;
        }
        let space = char_index(line, ' ');
        if space >= line.len() {
            continue;
        }
        let value = vstd::slice::slice_subrange(line, 0, space);
        let name = vstd::slice::slice_subrange(line, space + 1, line.len());
        assert(value@ == line@.take(space as int));
        assert(name@ == line@.skip(space + 1));
        pending = strip_prefix(name, "refs/tags/");
        if same_chars(value, wanted.as_slice()) {
            if let Some(name) = pending {
                return Some(text_of(name));
            }
        }
    }
    None
}

/// A line that ends in a line feed is split off.
pub proof fn lemma_next_line(line: Seq<char>, rest: Seq<char>)
    requires
        forall|i: int| 0 <= i < line.len() ==> line[i] != '\n',
        line.len() > 0 ==> line.last() != '\r',
    ensures
        next_line(line + seq!['\n'] + rest) == (line, rest),
{
    let text = line + seq!['\n'] + rest;
    let n = line.len() as int;
    assert(text[n] == '\n');
    assert forall|i: int| 0 <= i < n implies text[i] != '\n' by {
        assert(text[i] == line[i]);
    }
    crate::text::lemma_index_is(text, '\n', n);
    assert(text.take(n) == line);
    assert(text.skip(n + 1) == rest);
}

/// The line of `packed-refs` for a tag.
pub open spec fn tag_line(value: Seq<char>, name: Seq<char>) -> Seq<char> {
    value + " refs/tags/"@ + name
}

/// A tag's name that stands on one line.
pub open spec fn one_line(name: Seq<char>) -> bool {
    &&& forall|i: int| 0 <= i < name.len() ==> name[i] != '\n'
    &&& name.len() > 0
    &&& name.last() != '\r'
}

proof fn lemma_tag_line(value: Seq<char>, name: Seq<char>, rest: Seq<char>)
    requires
        is_sha(value),
        one_line(name),
    ensures
        next_line(tag_line(value, name) + seq!['\n'] + rest) == (tag_line(value, name), rest),
        ref_line(tag_line(value, name)) == (RefLine::Value { value, name: "refs/tags/"@ + name }),
        after_prefix("refs/tags/"@ + name, "refs/tags/"@) == Some(name),
{
    reveal_strlit(" refs/tags/");
    reveal_strlit("refs/tags/");
    let line = tag_line(value, name);
    assert forall|i: int| 0 <= i < line.len() implies line[i] != '\n' by {
        if i < 40 {
            assert(hex_digit(value[i]));
        } else if i < 51 {
            assert(line[i] == " refs/tags/"@[i - 40]);
        } else {
            assert(line[i] == name[i - 51]);
        }
    }
    assert(line.last() == name.last());
    lemma_next_line(line, rest);
    assert(hex_digit(value[0]) && line[0] == value[0]);
    assert(line[40] == " refs/tags/"@[0]);
    assert forall|i: int| 0 <= i < 40 implies line[i] != ' ' by {
        assert(hex_digit(value[i]));
    }
    crate::text::lemma_index_is(line, ' ', 40);
    assert(line.take(40) == value);
    assert(line.skip(41) == "refs/tags/"@ + name);
    assert("refs/tags/"@.is_prefix_of("refs/tags/"@ + name));
    assert(("refs/tags/"@ + name).skip(10) == name);
}

/// A tag whose line gives the commit is found by it.
pub proof fn light_tag_is_found(
    sha: Seq<char>,
    name: Seq<char>,
    rest: Seq<char>,
    pending: Option<Seq<char>>,
)
    requires
        is_sha(sha),
        one_line(name),
    ensures
        packed_tag(tag_line(sha, name) + seq!['\n'] + rest, pending, sha) == Some(name),
{
    lemma_tag_line(sha, name, rest);
}

/// An annotated tag is found by the commit behind it, which the next line gives.
pub proof fn annotated_tag_is_found(
    object: Seq<char>,
    name: Seq<char>,
    sha: Seq<char>,
    rest: Seq<char>,
    pending: Option<Seq<char>>,
)
    requires
        is_sha(object),
        is_sha(sha),
        one_line(name),
    ensures
        packed_tag(
            tag_line(object, name) + seq!['\n'] + (seq!['^'] + sha + seq!['\n'] + rest),
            pending,
            sha,
        ) == Some(name),
{
    let peeled = seq!['^'] + sha;
    let second = peeled + seq!['\n'] + rest;
    lemma_tag_line(object, name, second);
    if object != sha {
        assert forall|i: int| 0 <= i < peeled.len() implies peeled[i] != '\n' by {
            if i > 0 {
                assert(hex_digit(sha[i - 1]) && peeled[i] == sha[i - 1]);
            }
        }
        assert(hex_digit(sha[39]) && peeled.last() == sha[39]);
        assert(hex_digit(sha[0]));
        lemma_next_line(peeled, rest);
        assert(peeled.skip(1) == sha);
        crate::text::lemma_trimmed_is(sha);
        assert(packed_tag(second, Some(name), sha) == Some(name));
    }
}

/// What the lines of `packed-refs` say, one after the other.
pub open spec fn ref_lines(text: Seq<char>) -> Seq<RefLine>
    decreases text.len(),
{
    let (line, rest) = next_line(text);
    if text.len() == 0 {
        Seq::empty()
    } else {
        seq![ref_line(line)] + ref_lines(rest)
    }
}

/// The tag that a line is about, where it is about one.
pub open spec fn line_tag(line: RefLine) -> Option<Seq<char>> {
    match line {
        RefLine::Value { value, name } => after_prefix(name, "refs/tags/"@),
        _ => None,
    }
}

/// Past lines of no interest, the first line gives the commit `sha` behind an annotated tag.
pub open spec fn peeled_next(lines: Seq<RefLine>, sha: Seq<char>) -> bool {
    exists|j: int|
        0 <= j < lines.len() && (#[trigger] lines[j]) == RefLine::Peeled(sha) && forall|k: int|
            0 <= k < j ==> (#[trigger] lines[k]) is Other
}

/// Line `i` is about a tag that stands for the commit `sha`: by its value, or by the commit
/// behind it that the lines after it give.
pub open spec fn stands_for(lines: Seq<RefLine>, i: int, sha: Seq<char>) -> bool {
    &&& line_tag(lines[i]) is Some
    &&& lines[i]->value == sha || peeled_next(lines.skip(i + 1), sha)
}

/// Line `i` is the first one that is about a tag that stands for the commit.
pub open spec fn stands_first(lines: Seq<RefLine>, i: int, sha: Seq<char>) -> bool {
    &&& 0 <= i < lines.len()
    &&& stands_for(lines, i, sha)
    &&& forall|j: int| 0 <= j < i ==> !stands_for(lines, j, sha)
}

proof fn lemma_peeled_next(lines: Seq<RefLine>, sha: Seq<char>)
    ensures
        peeled_next(lines, sha) == (lines.len() > 0 && match lines[0] {
            RefLine::Peeled(commit) => commit == sha,
            RefLine::Other => peeled_next(lines.drop_first(), sha),
            _ => false,
        }),
{
    if lines.len() > 0 {
        let rest = lines.drop_first();
        if peeled_next(lines, sha) {
            let j = choose|j: int|
                0 <= j < lines.len() && (#[trigger] lines[j]) == RefLine::Peeled(sha) && forall|
                    k: int,
                |
                    0 <= k < j ==> (#[trigger] lines[k]) is Other;
            if j > 0 {
                assert(lines[0] is Other);
                assert(rest[j - 1] == RefLine::Peeled(sha));
                assert forall|k: int| 0 <= k < j - 1 implies (#[trigger] rest[k]) is Other by {
                    assert(lines[k + 1] is Other);
                }
            }
        }
        if lines[0] == RefLine::Peeled(sha) {
            assert(lines[0] == RefLine::Peeled(sha));
        } else if lines[0] is Other && peeled_next(rest, sha) {
            let j = choose|j: int|
                0 <= j < rest.len() && (#[trigger] rest[j]) == RefLine::Peeled(sha) && forall|
                    k: int,
                |
                    0 <= k < j ==> (#[trigger] rest[k]) is Other;
            assert(lines[j + 1] == RefLine::Peeled(sha));
            assert forall|k: int| 0 <= k < j + 1 implies (#[trigger] lines[k]) is Other by {
                if k > 0 {
                    assert(rest[k - 1] is Other);
                }
            }
        }
    }
}

/// A tag on the line before is given where its commit comes next, and matters no more where
/// it does not.
proof fn lemma_pending(text: Seq<char>, pending: Option<Seq<char>>, sha: Seq<char>)
    ensures
        packed_tag(text, pending, sha) == if pending is Some && peeled_next(ref_lines(text), sha) {
            pending
        } else {
            packed_tag(text, None, sha)
        },
    decreases text.len(),
{
    let lines = ref_lines(text);
    lemma_peeled_next(lines, sha);
    if text.len() > 0 {
        let (line, rest) = next_line(text);
        lemma_rest_is_shorter(text);
        assert(lines.drop_first() == ref_lines(rest));
        if ref_line(line) is Other {
            lemma_pending(rest, pending, sha);
        }
    }
}

proof fn lemma_rest_is_shorter(text: Seq<char>)
    requires
        text.len() > 0,
    ensures
        next_line(text).1.len() < text.len(),
{
}

/// What is found in `packed-refs` is the tag of the first line that is about a tag that
/// stands for the commit. Nothing is found only where there is no such line.
pub proof fn first_packed_tag_is_found(text: Seq<char>, sha: Seq<char>)
    ensures
        match packed_tag(text, None, sha) {
            Some(name) => exists|i: int| #[trigger]
                stands_first(ref_lines(text), i, sha) && line_tag(ref_lines(text)[i]) == Some(name),
            None => forall|i: int|
                0 <= i < ref_lines(text).len() ==> !stands_for(ref_lines(text), i, sha),
        },
    decreases text.len(),
{
    let lines = ref_lines(text);
    if text.len() > 0 {
        let (line, rest) = next_line(text);
        lemma_rest_is_shorter(text);
        let others = ref_lines(rest);
        assert(lines.drop_first() == others);
        assert(lines.skip(1) == others);
        assert forall|i: int| 0 <= i < others.len() implies stands_for(lines, i + 1, sha)
            == stands_for(others, i, sha) by {
            assert(lines[i + 1] == others[i]);
            assert(lines.skip(i + 2) == others.skip(i + 1));
        }
        let tag = line_tag(lines[0]);
        lemma_pending(rest, tag, sha);
        assert(stands_for(lines, 0, sha) == (tag is Some && (lines[0]->value == sha
            || peeled_next(others, sha))));
        first_packed_tag_is_found(rest, sha);
        if stands_for(lines, 0, sha) {
            assert(packed_tag(text, None, sha) == tag);
            assert(stands_first(lines, 0, sha));
        } else {
            assert(packed_tag(text, None, sha) == packed_tag(rest, None, sha));
            match packed_tag(rest, None, sha) {
                Some(name) => {
                    let i = choose|i: int| #[trigger]
                        stands_first(others, i, sha) && line_tag(others[i]) == Some(name);
                    assert forall|j: int| 0 <= j < i + 1 implies !stands_for(lines, j, sha) by {
                        if j > 0 {
                            assert(!stands_for(others, j - 1, sha));
                        }
                    }
                    assert(stands_for(lines, i + 1, sha));
                    assert(stands_first(lines, i + 1, sha));
                },
                None => {
                    assert forall|i: int| 0 <= i < lines.len() implies !stands_for(
                        lines,
                        i,
                        sha,
                    ) by {
                        if i > 0 {
                            assert(!stands_for(others, i - 1, sha));
                        }
                    }
                },
            }
        }
    }
}

} // verus!
