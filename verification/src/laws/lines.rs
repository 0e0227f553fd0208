//! What the two lines show of a session, and where they have it from.
use vstd::prelude::*;

use crate::fields::{branch_dir_of, fields_of, FieldsView};
use crate::home::{ascii_lower, normalized, shortened, starts_like};
use crate::json::{field_number, field_text, json_document, session_document, NodeView};
use crate::status::{
    bottom_parts, context_part, ctx_bar, human_size, join_parts, line_text, lines_part, place_part,
    session_status, top_parts, ContextView, StatusView,
};
use crate::text::{decimal, decimal_value, white_space};

verus! {

/// A field holds a text that is not empty, or the digits of a number, as they stand; nothing
/// else is a text. A number is read from its digits or from a text, as they stand.
pub proof fn fields_hold_texts_and_numbers(
    nodes: Map<Seq<char>, NodeView>,
    pointer: Seq<char>,
    text: Seq<char>,
)
    ensures
        field_text(nodes, pointer) == Some(text) <==> nodes.contains_key(pointer) && ((
        nodes[pointer] == NodeView::Text(text) && text.len() > 0) || nodes[pointer]
            == NodeView::Number(text)),
        field_number(nodes, pointer) == Some(text) <==> nodes.contains_key(pointer) && (
        nodes[pointer] == NodeView::Text(text) || nodes[pointer] == NodeView::Number(text)),
{
}

/// Each field of a session is the text or the number at its own place in the document.
pub proof fn fields_stand_at_their_places(nodes: Map<Seq<char>, NodeView>)
    ensures
        fields_of(nodes).mode == field_text(nodes, "/vim/mode"@),
        fields_of(nodes).model == field_text(nodes, "/model/display_name"@),
        fields_of(nodes).context_size == field_number(
            nodes,
            "/context_window/context_window_size"@,
        ),
        fields_of(nodes).used_percentage == field_number(
            nodes,
            "/context_window/used_percentage"@,
        ),
        fields_of(nodes).quota_total == field_text(nodes, "/credits/user_quota/total"@),
        fields_of(nodes).quota_remaining == field_text(nodes, "/credits/total_remaining"@),
        fields_of(nodes).lines_added == field_number(nodes, "/cost/total_lines_added"@),
        fields_of(nodes).lines_removed == field_number(nodes, "/cost/total_lines_removed"@),
        fields_of(nodes).worktree_branch == field_text(nodes, "/worktree/branch"@),
        fields_of(nodes).worktree_path == field_text(nodes, "/worktree/path"@),
{
}

/// The directory that is shown is the session's where it is given, and the one whose branch
/// is shown is the workspace's; each stands in for the other.
pub proof fn directories_stand_in_for_each_other(nodes: Map<Seq<char>, NodeView>)
    ensures
        ({
            let session = field_text(nodes, "/cwd"@);
            let workspace = field_text(nodes, "/workspace/current_dir"@);
            let fields = fields_of(nodes);
            &&& session is Some ==> fields.cwd == session
            &&& session is None ==> fields.cwd == workspace
            &&& workspace is Some ==> fields.git_cwd == workspace
            &&& workspace is None ==> fields.git_cwd == session
        }),
{
}

/// A branch is looked for in that directory, unless branch and path of a worktree are given.
pub proof fn branch_is_looked_for(fields: FieldsView)
    ensures
        fields.worktree_branch is Some && fields.worktree_path is Some ==> branch_dir_of(fields)
            is None,
        fields.worktree_branch is None || fields.worktree_path is None ==> branch_dir_of(fields)
            == fields.git_cwd,
{
}

/// A document describes a session where it is `null` or an object, whatever white space is
/// around it.
pub proof fn documents_describe_sessions(before: Seq<char>, text: Seq<char>, after: Seq<char>)
    requires
        forall|i: int| 0 <= i < before.len() ==> white_space(#[trigger] before[i]),
        forall|i: int| 0 <= i < after.len() ==> white_space(#[trigger] after[i]),
        text.len() > 0 ==> !white_space(text[0]) && !white_space(text.last()),
    ensures
        session_document(before + text + after) == match json_document(text) {
            Some(nodes) => if nodes.contains_key(Seq::empty()) && (nodes[Seq::empty()]
                == NodeView::Null || nodes[Seq::empty()] == NodeView::Object) {
                Some(nodes)
            } else {
                None
            },
            None => None,
        },
{
    crate::laws::text::trimming_leaves_the_text(before, text, after);
}

/// The parts of a session's state keep their places.
pub proof fn status_keeps_its_fields(
    fields: FieldsView,
    context: Option<ContextView>,
    added: nat,
    removed: nat,
    branch: Option<Seq<char>>,
    home: Option<Seq<char>>,
)
    ensures
        ({
            let status = session_status(fields, context, added, removed, branch, home);
            &&& status.mode == fields.mode
            &&& status.model == fields.model
            &&& status.context == context
            &&& status.quota_total == fields.quota_total
            &&& status.quota_remaining == fields.quota_remaining
            &&& status.cwd == fields.cwd
            &&& status.added == added
            &&& status.removed == removed
            &&& status.worktree_branch == fields.worktree_branch
            &&& status.worktree_path == fields.worktree_path
            &&& status.branch == branch
            &&& status.home == home
        }),
{
}

/// Backslashes become slashes, and nothing else of a path changes.
pub proof fn separators_become_slashes(path: Seq<char>, i: int)
    requires
        0 <= i < path.len(),
    ensures
        normalized(path).len() == path.len(),
        normalized(path)[i] == if path[i] == '\\' {
            '/'
        } else {
            path[i]
        },
{
}

/// A path is folded where it is the home directory, in any case of its ASCII letters, or goes
/// on with a separator behind it: `~` stands for as many characters. Any other path keeps all
/// of its characters but for the separators.
pub proof fn home_is_folded(path: Seq<char>, home: Seq<char>)
    ensures
        shortened(path, None) == normalized(path),
        ({
            let n = home.len() as int;
            let inside = n > 0 && n <= path.len() && (forall|i: int|
                0 <= i < n ==> {
                    let (a, b) = (#[trigger] path[i], home[i]);
                    ||| a == b
                    ||| 'A' <= a <= 'Z' && b as int == a as int + 32
                    ||| 'A' <= b <= 'Z' && a as int == b as int + 32
                    ||| (a == '\\' || a == '/') && (b == '\\' || b == '/')
                }) && (n == path.len() || path[n] == '/' || path[n] == '\\');
            shortened(path, Some(home)) == if inside {
                seq!['~'] + normalized(path.skip(n))
            } else {
                normalized(path)
            }
        }),
{
    let n = home.len() as int;
    let (p, h) = (normalized(path), normalized(home));
    if n <= path.len() {
        assert forall|i: int| 0 <= i < n implies (ascii_lower(#[trigger] p[i]) == ascii_lower(h[i]))
            == ({
            let (a, b) = (path[i], home[i]);
            ||| a == b
            ||| 'A' <= a <= 'Z' && b as int == a as int + 32
            ||| 'A' <= b <= 'Z' && a as int == b as int + 32
            ||| (a == '\\' || a == '/') && (b == '\\' || b == '/')
        }) by {
            lemma_same_letter(path[i], home[i]);
        }
        if starts_like(p, h) {
            assert forall|i: int| 0 <= i < n implies {
                let (a, b) = (#[trigger] path[i], home[i]);
                ||| a == b
                ||| 'A' <= a <= 'Z' && b as int == a as int + 32
                ||| 'A' <= b <= 'Z' && a as int == b as int + 32
                ||| (a == '\\' || a == '/') && (b == '\\' || b == '/')
            } by {
                assert(ascii_lower(p[i]) == ascii_lower(h[i]));
            }
        } else {
            let i = choose|i: int|
                0 <= i < n && ascii_lower(#[trigger] p[i]) != ascii_lower(h[i]);
            assert(path[i] == path[i]);
        }
        assert(p.skip(n) == normalized(path.skip(n)));
        if n < path.len() {
            assert(p.skip(n)[0] == crate::home::forward(path[n]));
        }
    }
}

proof fn lemma_same_letter(a: char, b: char)
    ensures
        (ascii_lower(crate::home::forward(a)) == ascii_lower(crate::home::forward(b))) == ({
            ||| a == b
            ||| 'A' <= a <= 'Z' && b as int == a as int + 32
            ||| 'A' <= b <= 'Z' && a as int == b as int + 32
            ||| (a == '\\' || a == '/') && (b == '\\' || b == '/')
        }),
{
}

/// The size of a context window is shown in full below a thousand, in thousands below a
/// million, and in millions from there on; what is left over is not shown.
pub proof fn sizes_are_shown_in_few_digits(n: nat)
    ensures
        n < 1_000 ==> decimal_value(human_size(n)) == n && human_size(n) == decimal(n),
        1_000 <= n < 1_000_000 ==> human_size(n).last() == 'k' && human_size(n).drop_last()
            == decimal(n / 1_000) && decimal_value(human_size(n).drop_last()) == n / 1_000,
        1_000_000 <= n ==> human_size(n).last() == 'M' && human_size(n).drop_last() == decimal(
            n / 1_000_000,
        ) && decimal_value(human_size(n).drop_last()) == n / 1_000_000,
{
    crate::text::number_reads_back(n);
    crate::text::number_reads_back(n / 1_000);
    crate::text::number_reads_back(n / 1_000_000);
    assert(decimal(n / 1_000).push('k').drop_last() == decimal(n / 1_000));
    assert(decimal(n / 1_000_000).push('M').drop_last() == decimal(n / 1_000_000));
}

/// The bar has ten cells; the first ones are filled, as many as are to be.
pub proof fn bar_has_ten_cells(filled: int, i: int)
    requires
        0 <= i < 10,
    ensures
        ctx_bar(filled).len() == 10,
        ctx_bar(filled)[i] == if i < filled {
            '▓'
        } else {
            '░'
        },
{
}

/// The lines that were added and removed stand in digits behind `+` and between `/-` and
/// ` lines`.
pub proof fn added_and_removed_are_spelled(added: nat, removed: nat)
    ensures
        lines_part(added, removed) == seq!['+'] + decimal(added) + seq!['/', '-'] + decimal(removed)
            + seq![' ', 'l', 'i', 'n', 'e', 's'],
        decimal_value(decimal(added)) == added,
        decimal_value(decimal(removed)) == removed,
{
    reveal_strlit("+");
    reveal_strlit("/-");
    reveal_strlit(" lines");
    crate::text::number_reads_back(added);
    crate::text::number_reads_back(removed);
    assert("+"@ == seq!['+']);
    assert("/-"@ == seq!['/', '-']);
    assert(" lines"@ == seq![' ', 'l', 'i', 'n', 'e', 's']);
}

/// Whoever reads digits behind `+` and between `/-` and ` lines` reads the number of added
/// lines and the number of removed ones, in this order.
pub proof fn added_and_removed_read_back(added: nat, removed: nat, a: Seq<char>, b: Seq<char>)
    requires
        lines_part(added, removed) == seq!['+'] + a + seq!['/', '-'] + b + seq![
            ' ',
            'l',
            'i',
            'n',
            'e',
            's',
        ],
        forall|i: int| 0 <= i < a.len() ==> '0' <= #[trigger] a[i] <= '9',
    ensures
        decimal_value(a) == added,
        decimal_value(b) == removed,
{
    let text = lines_part(added, removed);
    let (x, y) = (decimal(added), decimal(removed));
    let (m, n) = (a.len() as int, x.len() as int);
    added_and_removed_are_spelled(added, removed);
    crate::text::digits_of_number(added);
    assert forall|i: int| 0 <= i < 1 + m implies text[i] != '/' by {
        if i > 0 {
            assert(text[i] == a[i - 1]);
        }
    }
    assert(text[1 + m] == '/');
    crate::text::lemma_index_is(text, '/', 1 + m);
    assert forall|i: int| 0 <= i < 1 + n implies text[i] != '/' by {
        if i > 0 {
            assert(text[i] == x[i - 1]);
        }
    }
    assert(text[1 + n] == '/');
    crate::text::lemma_index_is(text, '/', 1 + n);
    assert(a == text.subrange(1, 1 + m));
    assert(x == text.subrange(1, 1 + n));
    assert(b == text.subrange(3 + m, text.len() - 6));
    assert(y == text.subrange(3 + n, text.len() - 6));
}

/// The second line shows the directory where it is known, then the lines that were added and
/// removed, then the worktree or else the branch where it is known, with bars between.
pub proof fn second_line_shows(status: StatusView, dir: Seq<char>, place: Seq<char>)
    ensures
        ({
            let a = decimal(status.added);
            let b = decimal(status.removed);
            let lines = "+"@ + a + "/-"@ + b + " lines"@;
            let bottom = join_parts(bottom_parts(status));
            let shown = place_part(status);
            &&& status.cwd is None && shown is None ==> bottom == lines
            &&& status.cwd == Some(dir) && shown is None ==> bottom == dir + " | "@ + lines
            &&& status.cwd is None && shown == Some(place) ==> bottom == lines + " | "@ + place
            &&& status.cwd == Some(dir) && shown == Some(place) ==> bottom == dir + " | "@ + lines
                + " | "@ + place
        }),
{
    let lines = lines_part(status.added, status.removed);
    let parts = bottom_parts(status);
    reveal_with_fuel(join_parts, 4);
    if status.cwd is None && place_part(status) is None {
        assert(parts == seq![lines]);
    } else if place_part(status) is None {
        assert(parts == seq![dir, lines] || status.cwd != Some(dir));
        assert(parts.drop_last() == seq![status.cwd->0]);
        assert(parts.last() == lines);
    } else if status.cwd is None {
        assert(parts.drop_last() == seq![lines]);
        assert(parts.last() == place_part(status)->0);
    } else {
        assert(parts.last() == place_part(status)->0);
        assert(parts.drop_last() == seq![status.cwd->0, lines]);
        assert(parts.drop_last().drop_last() == seq![status.cwd->0]);
    }
}

/// The place is the worktree, its path folded and its branch behind it, where both are known;
/// or else the branch, where it is known.
pub proof fn place_is_worktree_or_branch(
    status: StatusView,
    path: Seq<char>,
    branch: Seq<char>,
)
    ensures
        status.worktree_path == Some(path) && status.worktree_branch == Some(branch) ==> place_part(
            status,
        ) == Some("worktree: "@ + shortened(path, status.home) + " @ "@ + branch),
        (status.worktree_path is None || status.worktree_branch is None) && status.branch == Some(
            branch,
        ) ==> place_part(status) == Some("branch: "@ + branch),
        (status.worktree_path is None || status.worktree_branch is None) && status.branch is None
            ==> place_part(status) is None,
{
}

/// The context window is shown by its size, and where the use is known by the bar and the
/// percentage.
pub proof fn context_is_shown(size: nat, filled: int, percent: Seq<char>)
    ensures
        context_part(ContextView { size, used: None }) == human_size(size) + " ctx"@,
        context_part(ContextView { size, used: Some((filled, percent)) }) == human_size(size)
            + " ctx"@ + " "@ + ctx_bar(filled) + " "@ + percent + "%"@,
{
}

/// The first line shows the mode in brackets, the model, the context window and the credits,
/// what is left of them before all of them. What is not known is left out, with its bar.
pub proof fn first_line_shows(status: StatusView)
    ensures
        top_parts(status) == (if status.mode is Some {
            seq!["["@ + status.mode->0 + "]"@]
        } else {
            Seq::empty()
        }) + (if status.model is Some {
            seq![status.model->0]
        } else {
            Seq::empty()
        }) + (if status.context is Some {
            seq![context_part(status.context->0)]
        } else {
            Seq::empty()
        }) + (if status.quota_total is Some && status.quota_remaining is Some {
            seq!["额度: "@ + status.quota_remaining->0 + "/"@ + status.quota_total->0]
        } else {
            Seq::empty()
        }),
{
}

/// Parts are joined by a bar between two of them, and only there.
pub proof fn bars_stand_between_parts(parts: Seq<Seq<char>>, part: Seq<char>)
    ensures
        join_parts(Seq::empty()).len() == 0,
        join_parts(seq![part]) == part,
        parts.len() > 0 ==> join_parts(parts.push(part)) == join_parts(parts) + seq![' ', '|', ' ']
            + part,
{
    reveal_strlit(" | ");
    assert(" | "@ == seq![' ', '|', ' ']);
    assert(parts.push(part).drop_last() == parts);
}

/// Both lines are printed with a line break between them, or the second alone where the first
/// is empty. Without a document there is one line without numbers.
pub proof fn both_lines_are_printed(status: StatusView)
    ensures
        ({
            let top = join_parts(top_parts(status));
            let bottom = join_parts(bottom_parts(status));
            &&& top.len() > 0 ==> line_text(Some(status)) == top + seq!['\n'] + bottom
            &&& top.len() == 0 ==> line_text(Some(status)) == bottom
        }),
        line_text(None) == seq!['+', '/', '-', ' ', 'l', 'i', 'n', 'e', 's'],
{
    crate::status::second_line_is_never_empty(status);
    reveal_strlit("\n");
    reveal_strlit("+/- lines");
    assert("\n"@ == seq!['\n']);
    assert("+/- lines"@ == seq!['+', '/', '-', ' ', 'l', 'i', 'n', 'e', 's']);
}

} // verus!
