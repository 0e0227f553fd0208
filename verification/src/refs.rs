//! `HEAD`, and the files that point to git directories.
use vstd::prelude::*;

use crate::hex::{all_hex, is_hex};
use crate::text::{
    after_prefix, chars_of, strip_prefix, text_of, trim, trimmed, white_space,
};

verus! {

/// The view of optional text.
pub open spec fn text_view(text: Option<String>) -> Option<Seq<char>> {
    match text {
        Some(text) => Some(text@),
        None => None,
    }
}

/// Where a `.git` file points to: the path behind `gitdir:`.
pub open spec fn gitdir_path(content: Seq<char>) -> Option<Seq<char>> {
    match after_prefix(trimmed(content), "gitdir:"@) {
        Some(rest) => Some(trimmed(rest)),
        None => None,
    }
}

/// What stands at `.git` in a directory.
pub enum DotGit {
    /// A directory.
    Directory,
    /// A file with this content, or one that could not be read as text.
    File(Option<String>),
    /// Nothing.
    Missing,
}

/// Where the search for the git directory goes on.
pub enum GitDir {
    /// The directory `.git` itself.
    Here,
    /// The directory at this path, taken from the directory that was looked at.
    At(String),
    /// The parent directory is to be looked at.
    Above,
    /// There is no git directory to be found.
    Nowhere,
}

/// The view of a [`DotGit`].
pub enum DotGitView {
    /// A directory.
    Directory,
    /// A file with this content, or one that could not be read as text.
    File(Option<Seq<char>>),
    /// Nothing.
    Missing,
}

/// The view of a [`GitDir`].
pub enum GitDirView {
    /// The directory `.git` itself.
    Here,
    /// The directory at this path, taken from the directory that was looked at.
    At(Seq<char>),
    /// The parent directory is to be looked at.
    Above,
    /// There is no git directory to be found.
    Nowhere,
}

impl View for DotGit {
    type V = DotGitView;

    open spec fn view(&self) -> DotGitView {
        match self {
            DotGit::Directory => DotGitView::Directory,
            DotGit::File(content) => DotGitView::File(text_view(*content)),
            DotGit::Missing => DotGitView::Missing,
        }
    }
}

impl View for GitDir {
    type V = GitDirView;

    open spec fn view(&self) -> GitDirView {
        match self {
            GitDir::Here => GitDirView::Here,
            GitDir::At(path) => GitDirView::At(path@),
            GitDir::Above => GitDirView::Above,
            GitDir::Nowhere => GitDirView::Nowhere,
        }
    }
}

/// Where the git directory is, by what stands at `.git` in a directory. A file points to
/// another place; where nothing is there, the parent directory comes next.
pub open spec fn git_dir_of(found: DotGitView) -> GitDirView {
    match found {
        DotGitView::Directory => GitDirView::Here,
        DotGitView::File(content) => match content {
            Some(text) => match gitdir_path(text) {
                Some(path) => GitDirView::At(path),
                None => GitDirView::Nowhere,
            },
            None => GitDirView::Nowhere,
        },
        DotGitView::Missing => GitDirView::Above,
    }
}

/// Decides where the git directory is, by what stands at `.git` in a directory.
pub fn locate_git_dir(found: DotGit) -> (r: GitDir)
    ensures
        r@ == git_dir_of(found@),
{
    match found {
        DotGit::Directory => GitDir::Here,
        DotGit::File(Some(content)) => {
            let chars = chars_of(content.as_str());
            match strip_prefix(trim(chars.as_slice()), "gitdir:") {
                Some(rest) => GitDir::At(text_of(trim(rest))),
                None => GitDir::Nowhere,
            }
        },
        DotGit::File(None) => GitDir::Nowhere,
        DotGit::Missing => GitDir::Above,
    }
}

/// The walk from a directory upwards, by what stands at `.git` in each: how many levels up
/// it ends, and where the git directory is from there. `None` where it passes the top.
pub open spec fn walk_up(levels: Seq<DotGitView>) -> Option<(int, GitDirView)>
    decreases levels.len(),
{
    if levels.len() == 0 {
        None
    } else {
        match git_dir_of(levels[0]) {
            GitDirView::Above => match walk_up(levels.drop_first()) {
                Some((up, place)) => Some((up + 1, place)),
                None => None,
            },
            place => Some((0, place)),
        }
    }
}

/// The nearest directory in which something stands at `.git` decides.
pub proof fn nearest_git_dir_decides(levels: Seq<DotGitView>, k: int)
    requires
        0 <= k < levels.len(),
        !(levels[k] is Missing),
        forall|j: int| 0 <= j < k ==> (#[trigger] levels[j]) is Missing,
    ensures
        walk_up(levels) == Some((k, git_dir_of(levels[k]))),
    decreases k,
{
    if k > 0 {
        assert(levels[0] is Missing);
        nearest_git_dir_decides(levels.drop_first(), k - 1);
    }
}

/// Where nothing stands at `.git` in any directory, there is no git directory.
pub proof fn no_git_dir(levels: Seq<DotGitView>)
    requires
        forall|j: int| 0 <= j < levels.len() ==> (#[trigger] levels[j]) is Missing,
    ensures
        walk_up(levels) is None,
    decreases levels.len(),
{
    if levels.len() > 0 {
        assert(levels[0] is Missing);
        no_git_dir(levels.drop_first());
    }
}

/// The directory that a `commondir` file gives.
pub open spec fn common_dir_of(content: Seq<char>) -> Seq<char> {
    trimmed(content)
}

/// The git directory that a worktree shares with its repository, as its `commondir` file
/// gives it. `None` where there is no such file: then the directory shares none.
pub fn common_git_dir(commondir: Option<String>) -> (r: Option<String>)
    ensures
        match commondir {
            Some(content) => r matches Some(path) && path@ == common_dir_of(content@),
            None => r is None,
        },
{
    match commondir {
        Some(content) => {
            let chars = chars_of(content.as_str());
            Some(text_of(trim(chars.as_slice())))
        },
        None => None,
    }
}

/// What `HEAD` says.
pub enum Head {
    /// A branch is checked out.
    Branch(String),
    /// A commit is checked out, by this name.
    Detached(String),
    /// Something else.
    Unknown,
}

/// The view of a [`Head`].
pub enum HeadView {
    /// A branch is checked out.
    Branch(Seq<char>),
    /// A commit is checked out, by this name.
    Detached(Seq<char>),
    /// Something else.
    Unknown,
}

impl View for Head {
    type V = HeadView;

    open spec fn view(&self) -> HeadView {
        match self {
            Head::Branch(name) => HeadView::Branch(name@),
            Head::Detached(sha) => HeadView::Detached(sha@),
            Head::Unknown => HeadView::Unknown,
        }
    }
}

/// What the content of `HEAD` says: a symbolic reference to a branch, or nothing but
/// hexadecimal digits.
pub open spec fn head_of(content: Seq<char>) -> HeadView {
    let head = trimmed(content);
    match after_prefix(head, "ref: refs/heads/"@) {
        Some(name) => HeadView::Branch(name),
        None => if head.len() > 0 && all_hex(head) {
            HeadView::Detached(head)
        } else {
            HeadView::Unknown
        },
    }
}

/// Reads the content of `HEAD`; one that could not be read says nothing.
pub fn read_head(content: Option<String>) -> (r: Head)
    ensures
        match content {
            Some(text) => r@ == head_of(text@),
            None => r is Unknown,
        },
{
    let content = match content {
        Some(content) => content,
        None => {
            return Head::Unknown;
        },
    };
    let chars = chars_of(content.as_str());
    let head = trim(chars.as_slice());
    match strip_prefix(head, "ref: refs/heads/") {
        Some(name) => Head::Branch(text_of(name)),
        None => if head.len() > 0 && is_hex(head) {
            Head::Detached(text_of(head))
        } else {
            Head::Unknown
        },
    }
}

/// What is shown for a commit that is checked out: the tag, or else the first seven digits.
pub open spec fn commit_label(sha: Seq<char>, tag: Option<Seq<char>>) -> Seq<char> {
    match tag {
        Some(name) => name,
        None => if sha.len() <= 7 {
            sha
        } else {
            sha.take(7)
        },
    }
}

/// What is shown for a commit that is checked out.
pub fn detached_label(sha: &str, tag: Option<String>) -> (r: String)
    ensures
        r@ == commit_label(sha@, text_view(tag)),
{
    match tag {
        Some(name) => name,
        None => {
            let chars = chars_of(sha);
            if chars.len() <= 7 {
                text_of(chars.as_slice())
            } else {
                let (start, rest) = chars.as_slice().split_at(7);
                assert(start@ == sha@.take(7));
                text_of(start)
            }
        },
    }
}

/// What git writes into `HEAD` for a branch is read back as that branch.
pub proof fn branch_reads_back(name: Seq<char>)
    requires
        name.len() > 0 ==> !white_space(name.last()),
    ensures
        head_of("ref: refs/heads/"@ + name + seq!['\n']) == HeadView::Branch(name),
{
    reveal_strlit("ref: refs/heads/");
    let head = "ref: refs/heads/"@ + name;
    let content = head + seq!['\n'];
    assert(head[0] == 'r');
    assert(head.last() == if name.len() > 0 {
        name.last()
    } else {
        '/'
    });
    crate::text::trimming_takes_away(Seq::empty(), head, seq!['\n']);
    assert(Seq::<char>::empty() + head + seq!['\n'] == content);
    assert("ref: refs/heads/"@.is_prefix_of(head));
    assert(head.skip("ref: refs/heads/"@.len() as int) == name);
}

/// What git writes into `HEAD` for a commit is read back as that commit.
pub proof fn commit_reads_back(sha: Seq<char>)
    requires
        sha.len() > 0,
        all_hex(sha),
    ensures
        head_of(sha + seq!['\n']) == HeadView::Detached(sha),
{
    reveal_strlit("ref: refs/heads/");
    assert(crate::hex::hex_digit(sha[0]));
    assert(crate::hex::hex_digit(sha.last()));
    crate::text::trimming_takes_away(Seq::empty(), sha, seq!['\n']);
    assert(Seq::<char>::empty() + sha + seq!['\n'] == sha + seq!['\n']);
    if "ref: refs/heads/"@.is_prefix_of(sha) {
        assert(sha[0] == "ref: refs/heads/"@[0]);
    }
}

/// What git writes into a `.git` file is read back as the path that it points to.
pub proof fn gitdir_reads_back(path: Seq<char>)
    requires
        path.len() > 0,
        !white_space(path[0]),
        !white_space(path.last()),
    ensures
        gitdir_path("gitdir: "@ + path + seq!['\n']) == Some(path),
{
    reveal_strlit("gitdir:");
    reveal_strlit("gitdir: ");
    let line = "gitdir: "@ + path;
    assert(line[0] == 'g');
    assert(line.last() == path.last());
    crate::text::trimming_takes_away(Seq::empty(), line, seq!['\n']);
    assert(Seq::<char>::empty() + line + seq!['\n'] == line + seq!['\n']);
    assert("gitdir:"@.is_prefix_of(line));
    let rest = line.skip(7);
    assert(rest == seq![' '] + path + Seq::<char>::empty());
    crate::text::trimming_takes_away(seq![' '], path, Seq::empty());
}

} // verus!
