//! What the views of values hold: what the values hold, each part in its own place.
use vstd::prelude::*;

use crate::fields::Fields;
use crate::json::{Node, NodeView};
use crate::refs::{text_view, DotGit, DotGitView, GitDir, GitDirView, Head, HeadView};
use crate::search::{bytes_view, StepView, TagStep};
use crate::status::{text_views, Context, Status, Used};
use crate::tags::{ref_views, TagRef};

verus! {

/// A text and bytes that are given are the characters and the bytes that they are.
pub proof fn given_text_is_itself(text: String, bytes: Vec<u8>)
    ensures
        text_view(Some(text)) == Some(text@),
        text_view(None) is None,
        bytes_view(Some(bytes)) == Some(bytes@),
        bytes_view(None) is None,
{
}

/// The state of a session is seen part by part.
pub proof fn status_is_seen_part_by_part(status: Status)
    ensures
        status@.mode == text_view(status.mode),
        status@.model == text_view(status.model),
        status@.quota_total == text_view(status.quota_total),
        status@.quota_remaining == text_view(status.quota_remaining),
        status@.cwd == text_view(status.cwd),
        status@.added == status.added,
        status@.removed == status.removed,
        status@.worktree_branch == text_view(status.worktree_branch),
        status@.worktree_path == text_view(status.worktree_path),
        status@.branch == text_view(status.branch),
        status@.home == text_view(status.home),
        status.context is None ==> status@.context is None,
        status.context matches Some(context) ==> status@.context == Some(context@),
{
}

/// The context window is seen by its size and its use.
pub proof fn context_is_seen(context: Context, used: Used)
    ensures
        context@.size == context.size,
        context.used is None ==> context@.used is None,
        context.used == Some(used) ==> context@.used == Some((used.filled as int, used.percent@)),
{
}

/// The fields of a session are seen one by one.
pub proof fn fields_are_seen_one_by_one(fields: Fields)
    ensures
        fields@.mode == text_view(fields.mode),
        fields@.model == text_view(fields.model),
        fields@.context_size == text_view(fields.context_size),
        fields@.used_percentage == text_view(fields.used_percentage),
        fields@.quota_total == text_view(fields.quota_total),
        fields@.quota_remaining == text_view(fields.quota_remaining),
        fields@.cwd == text_view(fields.cwd),
        fields@.lines_added == text_view(fields.lines_added),
        fields@.lines_removed == text_view(fields.lines_removed),
        fields@.worktree_branch == text_view(fields.worktree_branch),
        fields@.worktree_path == text_view(fields.worktree_path),
        fields@.git_cwd == text_view(fields.git_cwd),
{
}

/// What a document holds at a place is seen with its text.
pub proof fn nodes_are_seen(text: String)
    ensures
        Node::Null@ == NodeView::Null,
        Node::Bool@ == NodeView::Bool,
        Node::Number(text)@ == NodeView::Number(text@),
        Node::Text(text)@ == NodeView::Text(text@),
        Node::Array@ == NodeView::Array,
        Node::Object@ == NodeView::Object,
{
}

/// What `HEAD` says, what stands at `.git` and where that leads are seen with their texts.
pub proof fn heads_and_directories_are_seen(text: String)
    ensures
        Head::Branch(text)@ == HeadView::Branch(text@),
        Head::Detached(text)@ == HeadView::Detached(text@),
        Head::Unknown@ == HeadView::Unknown,
        DotGit::Directory@ == DotGitView::Directory,
        DotGit::File(Some(text))@ == DotGitView::File(Some(text@)),
        DotGit::File(None)@ == DotGitView::File(None),
        DotGit::Missing@ == DotGitView::Missing,
        GitDir::Here@ == GitDirView::Here,
        GitDir::At(text)@ == GitDirView::At(text@),
        GitDir::Above@ == GitDirView::Above,
        GitDir::Nowhere@ == GitDirView::Nowhere,
{
}

/// The steps of the search are seen with their texts.
pub proof fn steps_are_seen(name: String, dir: String, file: String)
    ensures
        TagStep::Found(name)@ == StepView::Found(name@),
        (TagStep::ReadObject { dir, file })@ == (StepView::ReadObject { dir: dir@, file: file@ }),
        TagStep::ReadPacks@ == StepView::ReadPacks,
        TagStep::ReadPackedRefs@ == StepView::ReadPackedRefs,
        TagStep::NotFound@ == StepView::NotFound,
{
}

/// Lists of references and of texts are seen element by element.
pub proof fn lists_are_seen_element_by_element(refs: Seq<TagRef>, texts: Seq<String>, i: int)
    ensures
        ref_views(refs).len() == refs.len(),
        0 <= i < refs.len() ==> ref_views(refs)[i] == (refs[i].name@, refs[i].sha@),
        text_views(texts).len() == texts.len(),
        0 <= i < texts.len() ==> text_views(texts)[i] == texts[i]@,
{
}

} // verus!
