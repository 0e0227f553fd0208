//! The fields of a session's document that the status line shows.
use vstd::prelude::*;

use crate::json::{field_number, field_text, get_number_text, get_text, json_nodes, NodeView};
use crate::refs::text_view;

verus! {

/// The texts of the fields, each where it is given.
pub struct Fields {
    /// The mode of the editor.
    pub mode: Option<String>,
    /// The name of the model.
    pub model: Option<String>,
    /// The size of the context window, in digits.
    pub context_size: Option<String>,
    /// How much of the context window is used, in percent.
    pub used_percentage: Option<String>,
    /// All credits.
    pub quota_total: Option<String>,
    /// The credits that are left.
    pub quota_remaining: Option<String>,
    /// The directory that is shown.
    pub cwd: Option<String>,
    /// The number of lines that were added.
    pub lines_added: Option<String>,
    /// The number of lines that were removed.
    pub lines_removed: Option<String>,
    /// The branch of the worktree.
    pub worktree_branch: Option<String>,
    /// The path of the worktree.
    pub worktree_path: Option<String>,
    /// The directory whose branch is shown.
    pub git_cwd: Option<String>,
}

/// The view of [`Fields`].
#[verifier::ext_equal]
pub struct FieldsView {
    pub mode: Option<Seq<char>>,
    pub model: Option<Seq<char>>,
    pub context_size: Option<Seq<char>>,
    pub used_percentage: Option<Seq<char>>,
    pub quota_total: Option<Seq<char>>,
    pub quota_remaining: Option<Seq<char>>,
    pub cwd: Option<Seq<char>>,
    pub lines_added: Option<Seq<char>>,
    pub lines_removed: Option<Seq<char>>,
    pub worktree_branch: Option<Seq<char>>,
    pub worktree_path: Option<Seq<char>>,
    pub git_cwd: Option<Seq<char>>,
}

impl View for Fields {
    type V = FieldsView;

    open spec fn view(&self) -> FieldsView {
        FieldsView {
            mode: text_view(self.mode),
            model: text_view(self.model),
            context_size: text_view(self.context_size),
            used_percentage: text_view(self.used_percentage),
            quota_total: text_view(self.quota_total),
            quota_remaining: text_view(self.quota_remaining),
            cwd: text_view(self.cwd),
            lines_added: text_view(self.lines_added),
            lines_removed: text_view(self.lines_removed),
            worktree_branch: text_view(self.worktree_branch),
            worktree_path: text_view(self.worktree_path),
            git_cwd: text_view(self.git_cwd),
        }
    }
}

/// The first of two texts that is given.
pub open spec fn first_given(a: Option<Seq<char>>, b: Option<Seq<char>>) -> Option<Seq<char>> {
    if a is Some {
        a
    } else {
        b
    }
}

/// The fields of a document. The directory that is shown is the session's own, or else that
/// of the workspace; for the branch it is the other way round.
pub open spec fn fields_of(nodes: Map<Seq<char>, NodeView>) -> FieldsView {
    let session_dir = field_text(nodes, "/cwd"@);
    let workspace_dir = field_text(nodes, "/workspace/current_dir"@);
    FieldsView {
        mode: field_text(nodes, "/vim/mode"@),
        model: field_text(nodes, "/model/display_name"@),
        context_size: field_number(nodes, "/context_window/context_window_size"@),
        used_percentage: field_number(nodes, "/context_window/used_percentage"@),
        quota_total: field_text(nodes, "/credits/user_quota/total"@),
        quota_remaining: field_text(nodes, "/credits/total_remaining"@),
        cwd: first_given(session_dir, workspace_dir),
        lines_added: field_number(nodes, "/cost/total_lines_added"@),
        lines_removed: field_number(nodes, "/cost/total_lines_removed"@),
        worktree_branch: field_text(nodes, "/worktree/branch"@),
        worktree_path: field_text(nodes, "/worktree/path"@),
        git_cwd: first_given(workspace_dir, session_dir),
    }
}

/// The text of a field, or else that of another.
fn get_either(root: &serde_json::Value, pointer: &str, other: &str) -> (r: Option<String>)
    ensures
        text_view(r) == first_given(
            field_text(json_nodes(*root), pointer@),
            field_text(json_nodes(*root), other@),
        ),
{
    match get_text(root, pointer) {
        Some(text) => Some(text),
        None => get_text(root, other),
    }
}

/// Reads the fields of a document.
pub fn read_fields(root: &serde_json::Value) -> (r: Fields)
    ensures
        r@ == fields_of(json_nodes(*root)),
{
    Fields {
        mode: get_text(root, "/vim/mode"),
        model: get_text(root, "/model/display_name"),
        context_size: get_number_text(root, "/context_window/context_window_size"),
        used_percentage: get_number_text(root, "/context_window/used_percentage"),
        quota_total: get_text(root, "/credits/user_quota/total"),
        quota_remaining: get_text(root, "/credits/total_remaining"),
        cwd: get_either(root, "/cwd", "/workspace/current_dir"),
        lines_added: get_number_text(root, "/cost/total_lines_added"),
        lines_removed: get_number_text(root, "/cost/total_lines_removed"),
        worktree_branch: get_text(root, "/worktree/branch"),
        worktree_path: get_text(root, "/worktree/path"),
        git_cwd: get_either(root, "/workspace/current_dir", "/cwd"),
    }
}

/// The directory whose branch has to be found: none where the session is in a worktree of
/// which branch and path are given.
pub open spec fn branch_dir_of(fields: FieldsView) -> Option<Seq<char>> {
    if fields.worktree_branch is Some && fields.worktree_path is Some {
        None
    } else {
        fields.git_cwd
    }
}

impl Fields {
    /// The directory whose branch has to be found.
    pub fn branch_dir(&self) -> (r: Option<&str>)
        ensures
            match branch_dir_of(self@) {
                Some(dir) => r matches Some(found) && found@ == dir,
                None => r is None,
            },
    {
        if self.worktree_branch.is_some() && self.worktree_path.is_some() {
            return None;
        }
        match &self.git_cwd {
            Some(dir) => Some(dir.as_str()),
            None => None,
        }
    }
}

/// The directory that is shown and the one whose branch is shown are given together.
pub proof fn directories_are_given_together(nodes: Map<Seq<char>, NodeView>)
    ensures
        fields_of(nodes).cwd is Some == fields_of(nodes).git_cwd is Some,
{
}

/// A field with an empty string counts as absent.
pub proof fn empty_text_is_absent(nodes: Map<Seq<char>, NodeView>, pointer: Seq<char>)
    requires
        nodes.contains_key(pointer),
        nodes[pointer] == NodeView::Text(Seq::empty()),
    ensures
        field_text(nodes, pointer) is None,
{
}

} // verus!
