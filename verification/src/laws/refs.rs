//! What `packed-refs`, `HEAD` and the files that point to git directories say.
use vstd::prelude::*;

use crate::hex::{all_hex, hex_digit};
use crate::packed_refs::{lemma_next_line, next_line, packed_tag, ref_line, RefLine};
use crate::refs::{
    commit_label, common_dir_of, git_dir_of, head_of, DotGitView, GitDirView, HeadView,
};
use crate::text::{
    after_prefix, lemma_index_is, lemma_index_of, white_space,
};

verus! {

/// A line of `packed-refs` with a value and a reference that is no tag changes nothing of what
/// is found behind it, and ends what the line before it began. One with a tag gives the tag
/// where the value is the commit, and else the tag may be given by the line behind it.
pub proof fn line_of_a_reference(
    value: Seq<char>,
    name: Seq<char>,
    text: Seq<char>,
    pending: Option<Seq<char>>,
    sha: Seq<char>,
)
    requires
        forall|i: int| 0 <= i < value.len() ==> #[trigger] value[i] != '\n' && value[i] != ' ',
        value.len() > 0 ==> value[0] != '^' && value[0] != '#',
        forall|i: int| 0 <= i < name.len() ==> #[trigger] name[i] != '\n',
        name.len() > 0 ==> name.last() != '\r',
    ensures
        (forall|tag: Seq<char>| name != #[trigger] ("refs/tags/"@ + tag)) ==> packed_tag(
            value + seq![' '] + name + seq!['\n'] + text,
            pending,
            sha,
        ) == packed_tag(text, None, sha),
        forall|tag: Seq<char>|
            name == #[trigger] ("refs/tags/"@ + tag) ==> packed_tag(
                value + seq![' '] + name + seq!['\n'] + text,
                pending,
                sha,
            ) == if value == sha {
                Some(tag)
            } else {
                packed_tag(text, Some(tag), sha)
            },
{
    let line = value + seq![' '] + name;
    let n = value.len() as int;
    assert forall|i: int| 0 <= i < line.len() implies line[i] != '\n' by {
        if i < n {
            assert(line[i] == value[i]);
        } else if i > n {
            assert(line[i] == name[i - n - 1]);
        }
    }
    assert(line.last() == if name.len() > 0 {
        name.last()
    } else {
        ' '
    });
    lemma_next_line(line, text);
    assert forall|j: int| 0 <= j < n implies line[j] != ' ' by {
        assert(line[j] == value[j]);
    }
    assert(line[n] == ' ');
    lemma_index_is(line, ' ', n);
    assert(line.take(n) == value);
    assert(line.skip(n + 1) == name);
    assert(line[0] == if n > 0 {
        value[0]
    } else {
        ' '
    });
    assert(ref_line(line) == (RefLine::Value { value, name }));
    let prefix = "refs/tags/"@;
    assert forall|tag: Seq<char>| name == #[trigger] (prefix + tag) implies after_prefix(
        name,
        prefix,
    ) == Some(tag) by {
        assert(prefix.is_prefix_of(name));
        assert(name.skip(prefix.len() as int) == tag);
    }
    if prefix.is_prefix_of(name) {
        assert(name == prefix + name.skip(prefix.len() as int));
    }
}

/// A line that gives the commit behind a tag, with or without white space around it, gives the
/// tag of the line before, where there is one and the commit is the one that is looked for.
/// Otherwise it ends what that line began.
pub proof fn line_of_a_commit(
    before: Seq<char>,
    commit: Seq<char>,
    after: Seq<char>,
    text: Seq<char>,
    pending: Option<Seq<char>>,
    sha: Seq<char>,
)
    requires
        forall|i: int|
            0 <= i < before.len() ==> #[trigger] before[i] != '\n' && white_space(before[i]),
        forall|i: int| 0 <= i < commit.len() ==> #[trigger] commit[i] != '\n',
        forall|i: int| 0 <= i < after.len() ==> #[trigger] after[i] != '\n' && white_space(after[i]),
        after.len() > 0 ==> after.last() != '\r',
        commit.len() > 0,
        !white_space(commit[0]),
        !white_space(commit.last()),
    ensures
        packed_tag(
            seq!['^'] + (before + commit + after) + seq!['\n'] + text,
            pending,
            sha,
        ) == if commit == sha && pending is Some {
            pending
        } else {
            packed_tag(text, None, sha)
        },
{
    let behind = before + commit + after;
    let line = seq!['^'] + behind;
    assert forall|i: int| 0 <= i < line.len() implies line[i] != '\n' by {
        if i > 0 {
            let k = i - 1;
            assert(line[i] == behind[k]);
            if k < before.len() {
                assert(behind[k] == before[k]);
            } else if k < before.len() + commit.len() {
                assert(behind[k] == commit[k - before.len()]);
            } else {
                assert(behind[k] == after[k - before.len() - commit.len()]);
            }
        }
    }
    assert(line.last() == if after.len() > 0 {
        after.last()
    } else {
        commit.last()
    });
    lemma_next_line(line, text);
    assert(line.skip(1) == behind);
    crate::laws::text::trimming_leaves_the_text(before, commit, after);
}

/// A comment, and a line without a space that gives no commit, changes nothing.
pub proof fn line_of_no_interest(
    line: Seq<char>,
    text: Seq<char>,
    pending: Option<Seq<char>>,
    sha: Seq<char>,
)
    requires
        forall|i: int| 0 <= i < line.len() ==> #[trigger] line[i] != '\n',
        line.len() > 0 ==> line.last() != '\r',
        line.len() > 0 ==> line[0] == '#' || (line[0] != '^' && forall|i: int|
            0 <= i < line.len() ==> #[trigger] line[i] != ' '),
    ensures
        packed_tag(line + seq!['\n'] + text, pending, sha) == packed_tag(text, pending, sha),
{
    lemma_next_line(line, text);
    if line.len() == 0 || line[0] != '#' {
        lemma_index_is(line, ' ', line.len() as int);
    }
    assert(ref_line(line) is Other);
}

/// Lines may end in a carriage return too, and the last one may have no end.
pub proof fn ends_of_lines_do_not_matter(
    line: Seq<char>,
    text: Seq<char>,
    pending: Option<Seq<char>>,
    sha: Seq<char>,
)
    requires
        forall|i: int| 0 <= i < line.len() ==> #[trigger] line[i] != '\n',
        line.len() > 0 ==> line.last() != '\r',
    ensures
        packed_tag(line + seq!['\r', '\n'] + text, pending, sha) == packed_tag(
            line + seq!['\n'] + text,
            pending,
            sha,
        ),
        packed_tag(line, pending, sha) == packed_tag(line + seq!['\n'], pending, sha),
        packed_tag(Seq::empty(), pending, sha) is None,
{
    lemma_next_line(line, text);
    lemma_next_line(line, Seq::empty());
    assert(line + seq!['\n'] + Seq::<char>::empty() == line + seq!['\n']);
    let long = line + seq!['\r', '\n'] + text;
    let n = line.len() as int;
    assert(long[n] == '\r' && long[n + 1] == '\n');
    assert forall|j: int| 0 <= j < n + 1 implies long[j] != '\n' by {
        if j < n {
            assert(long[j] == line[j]);
        }
    }
    lemma_index_is(long, '\n', n + 1);
    assert(long.take(n + 1).drop_last() == line);
    assert(long.skip(n + 2) == text);
    assert(next_line(long) == (line, text));
    lemma_index_is(line, '\n', n);
    assert(next_line(line) == (line, Seq::<char>::empty()));
    assert(packed_tag(Seq::empty(), None, sha) is None);
    if n == 0 {
        lemma_index_is(line, ' ', 0);
    }
}

/// Only tags are found: a name that is found stands on a line of its own behind a value, a
/// space and `refs/tags/`.
pub proof fn only_tags_are_found(text: Seq<char>, sha: Seq<char>)
    ensures
        packed_tag(text, None, sha) matches Some(name) ==> exists|
            before: Seq<char>,
            value: Seq<char>,
            after: Seq<char>,
        |
            {
                &&& text == #[trigger] (before + value + " refs/tags/"@ + name + after)
                &&& before.len() == 0 || before.last() == '\n'
                &&& after.len() == 0 || after[0] == '\n' || after[0] == '\r'
                &&& !value.contains('\n') && !value.contains(' ')
                &&& !name.contains('\n')
            },
{
    if let Some(name) = packed_tag(text, None, sha) {
        lemma_tags_only(text, None, sha, name);
        let (before, value, after) = choose|before: Seq<char>, value: Seq<char>, after: Seq<char>|
            stands_in(text, name, before, value, after);
        assert(text == before + value + " refs/tags/"@ + name + after);
    }
}

spec fn stands_in(
    text: Seq<char>,
    name: Seq<char>,
    before: Seq<char>,
    value: Seq<char>,
    after: Seq<char>,
) -> bool {
    &&& text == before + value + " refs/tags/"@ + name + after
    &&& before.len() == 0 || before.last() == '\n'
    &&& after.len() == 0 || after[0] == '\n' || after[0] == '\r'
    &&& !value.contains('\n') && !value.contains(' ')
    &&& !name.contains('\n')
}

proof fn lemma_line_parts(text: Seq<char>) -> (start: Seq<char>)
    requires
        text.len() > 0,
    ensures
        ({
            let (line, rest) = next_line(text);
            &&& text == start + rest
            &&& line.is_prefix_of(start)
            &&& !line.contains('\n')
            &&& rest.len() < text.len()
            &&& start.last() == '\n' || rest.len() == 0
            &&& start.len() == line.len() || start[line.len() as int] == '\n' || start[line.len()
                as int] == '\r'
        }),
{
    let (line, rest) = next_line(text);
    lemma_index_of(text, '\n');
    let start = text.take(text.len() - rest.len());
    assert(text == start + rest);
    assert(line.is_prefix_of(start));
    assert(!line.contains('\n')) by {
        if line.contains('\n') {
            let i = choose|i: int| 0 <= i < line.len() && line[i] == '\n';
            assert(text[i] == '\n');
        }
    }
    start
}

spec fn stands_somewhere(text: Seq<char>, name: Seq<char>) -> bool {
    exists|before: Seq<char>, value: Seq<char>, after: Seq<char>|
        stands_in(text, name, before, value, after)
}

proof fn lemma_own_line(text: Seq<char>, value: Seq<char>, reference: Seq<char>, found: Seq<char>)
    requires
        text.len() > 0,
        ref_line(next_line(text).0) == (RefLine::Value { value, name: reference }),
        after_prefix(reference, "refs/tags/"@) == Some(found),
    ensures
        stands_somewhere(text, found),
{
    let (line, rest) = next_line(text);
    let start = lemma_line_parts(text);
    lemma_index_of(line, ' ');
    let prefix = "refs/tags/"@;
    crate::laws::text::prefix_and_rest_are_the_text(reference, prefix, found);
    reveal_strlit(" refs/tags/");
    reveal_strlit("refs/tags/");
    let middle = " refs/tags/"@;
    assert(middle == seq![' '] + prefix);
    assert(line == value + seq![' '] + reference);
    assert(line == value + middle + found);
    let end = start.skip(line.len() as int);
    let after = end + rest;
    assert(start == line + end);
    assert(text == Seq::<char>::empty() + value + middle + found + after);
    assert(!value.contains('\n') && !value.contains(' ')) by {
        if value.contains('\n') {
            let i = choose|i: int| 0 <= i < value.len() && value[i] == '\n';
            assert(line[i] == '\n');
        }
        if value.contains(' ') {
            let i = choose|i: int| 0 <= i < value.len() && value[i] == ' ';
            assert(line[i] == ' ');
        }
    }
    assert(!found.contains('\n')) by {
        if found.contains('\n') {
            let i = choose|i: int| 0 <= i < found.len() && found[i] == '\n';
            assert(line[line.len() - found.len() + i] == '\n');
        }
    }
    assert(after.len() == 0 || after[0] == '\n' || after[0] == '\r') by {
        if start.len() > line.len() {
            assert(after[0] == start[line.len() as int]);
        } else {
            assert(start == line);
            if rest.len() > 0 {
                assert(line[line.len() - 1] == '\n');
            }
        }
    }
    assert(stands_in(text, found, Seq::empty(), value, after));
}

proof fn lemma_later_line(text: Seq<char>, name: Seq<char>)
    requires
        text.len() > 0,
        stands_somewhere(next_line(text).1, name),
    ensures
        stands_somewhere(text, name),
{
    let rest = next_line(text).1;
    let start = lemma_line_parts(text);
    let (b, v, a) = choose|b: Seq<char>, v: Seq<char>, a: Seq<char>| stands_in(rest, name, b, v, a);
    reveal_strlit(" refs/tags/");
    assert(rest.len() > 0);
    assert(text == (start + b) + v + " refs/tags/"@ + name + a);
    assert((start + b).last() == '\n');
    assert(stands_in(text, name, start + b, v, a));
}

proof fn lemma_tags_only(
    text: Seq<char>,
    pending: Option<Seq<char>>,
    sha: Seq<char>,
    name: Seq<char>,
)
    requires
        packed_tag(text, pending, sha) == Some(name),
    ensures
        pending == Some(name) || stands_somewhere(text, name),
    decreases text.len(),
{
    let (line, rest) = next_line(text);
    let start = lemma_line_parts(text);
    match ref_line(line) {
        RefLine::Value { value, name: reference } => {
            let tag = after_prefix(reference, "refs/tags/"@);
            if tag is Some {
                lemma_own_line(text, value, reference, tag->0);
            }
            if !(value == sha && tag is Some) {
                lemma_tags_only(rest, tag, sha, name);
                if stands_somewhere(rest, name) {
                    lemma_later_line(text, name);
                }
            }
        },
        RefLine::Other => {
            lemma_tags_only(rest, pending, sha, name);
            if stands_somewhere(rest, name) {
                lemma_later_line(text, name);
            }
        },
        RefLine::Peeled(commit) => {
            if !(commit == sha && pending is Some) {
                lemma_tags_only(rest, None, sha, name);
                lemma_later_line(text, name);
            }
        },
    }
}

/// What is shown of a commit: the name of its tag in full, whatever the commit; where there is
/// no tag, the start of the commit's name, seven characters or all that there are.
pub proof fn label_of_a_commit(sha: Seq<char>, name: Seq<char>)
    ensures
        commit_label(sha, Some(name)) == name,
        commit_label(sha, None).is_prefix_of(sha),
        commit_label(sha, None).len() == if sha.len() < 7 {
            sha.len()
        } else {
            7
        },
{
}

/// `HEAD` within white space: a symbolic reference below `refs/heads/` gives the branch with
/// the rest of its name; hexadecimal digits give a commit; anything else gives nothing.
pub proof fn head_gives_branch_or_commit(
    before: Seq<char>,
    head: Seq<char>,
    after: Seq<char>,
    name: Seq<char>,
)
    requires
        forall|i: int| 0 <= i < before.len() ==> white_space(#[trigger] before[i]),
        forall|i: int| 0 <= i < after.len() ==> white_space(#[trigger] after[i]),
        head.len() > 0 ==> !white_space(head[0]) && !white_space(head.last()),
    ensures
        head == "ref: refs/heads/"@ + name ==> head_of(before + head + after) == HeadView::Branch(
            name,
        ),
        head_of(before + head + after) == HeadView::Branch(name) ==> head == "ref: refs/heads/"@
            + name,
        head_of(before + head + after) == HeadView::Detached(name) <==> (name == head && head.len()
            > 0 && forall|i: int|
            0 <= i < head.len() ==> '0' <= #[trigger] head[i] <= '9' || 'a' <= head[i] <= 'f'
                || 'A' <= head[i] <= 'F'),
{
    crate::laws::text::trimming_leaves_the_text(before, head, after);
    let prefix = "ref: refs/heads/"@;
    crate::laws::text::prefix_and_rest_are_the_text(head, prefix, name);
    reveal_strlit("ref: refs/heads/");
    if prefix.is_prefix_of(head) {
        assert(head[0] == prefix[0]);
    }
    if all_hex(head) {
        assert forall|i: int| 0 <= i < head.len() implies '0' <= #[trigger] head[i] <= '9' || 'a'
            <= head[i] <= 'f' || 'A' <= head[i] <= 'F' by {
            assert(hex_digit(head[i]));
        }
    }
}

/// A `.git` directory is the git directory, and a missing one sends the search upwards. A
/// file sends it to the path behind `gitdir:`, and one that cannot be read or says something
/// else ends it.
pub proof fn git_file_points_to_its_path(
    before: Seq<char>,
    space: Seq<char>,
    path: Seq<char>,
    after: Seq<char>,
    other: Seq<char>,
)
    requires
        forall|i: int| 0 <= i < before.len() ==> white_space(#[trigger] before[i]),
        forall|i: int| 0 <= i < space.len() ==> white_space(#[trigger] space[i]),
        forall|i: int| 0 <= i < after.len() ==> white_space(#[trigger] after[i]),
        path.len() > 0,
        !white_space(path[0]),
        !white_space(path.last()),
        other.len() > 0 ==> !white_space(other[0]) && !white_space(other.last()),
        forall|rest: Seq<char>| other != #[trigger] ("gitdir:"@ + rest),
    ensures
        git_dir_of(DotGitView::Directory) == GitDirView::Here,
        git_dir_of(DotGitView::Missing) == GitDirView::Above,
        git_dir_of(DotGitView::File(None)) == GitDirView::Nowhere,
        git_dir_of(
            DotGitView::File(Some(before + ("gitdir:"@ + space + path) + after)),
        ) == GitDirView::At(path),
        git_dir_of(DotGitView::File(Some(before + other + after))) == GitDirView::Nowhere,
{
    reveal_strlit("gitdir:");
    let prefix = "gitdir:"@;
    let line = prefix + space + path;
    assert(line[0] == 'g' && line.last() == path.last());
    crate::laws::text::trimming_leaves_the_text(before, line, after);
    assert(line == prefix + (space + path));
    crate::laws::text::prefix_and_rest_are_the_text(line, prefix, space + path);
    crate::laws::text::trimming_leaves_the_text(space, path, Seq::empty());
    assert(space + path + Seq::<char>::empty() == space + path);
    crate::laws::text::trimming_leaves_the_text(before, other, after);
    if prefix.is_prefix_of(other) {
        assert(other == prefix + other.skip(prefix.len() as int));
    }
}

/// A `commondir` file gives the path in it, without the white space around it.
pub proof fn common_directory_is_given(before: Seq<char>, path: Seq<char>, after: Seq<char>)
    requires
        forall|i: int| 0 <= i < before.len() ==> white_space(#[trigger] before[i]),
        forall|i: int| 0 <= i < after.len() ==> white_space(#[trigger] after[i]),
        path.len() > 0 ==> !white_space(path[0]) && !white_space(path.last()),
    ensures
        common_dir_of(before + path + after) == path,
{
    crate::laws::text::trimming_leaves_the_text(before, path, after);
}

} // verus!
