//! The status line: two lines of text about a session.
use vstd::prelude::*;

use crate::fields::{Fields, FieldsView};
use crate::home::{shorten_home, shortened};
use crate::refs::text_view;
use crate::text::{decimal, push_decimal};

verus! {

/// A number in few characters: millions, thousands, or all digits.
pub open spec fn human_size(n: nat) -> Seq<char> {
    if n >= 1_000_000 {
        decimal(n / 1_000_000).push('M')
    } else if n >= 1_000 {
        decimal(n / 1_000).push('k')
    } else {
        decimal(n)
    }
}

/// A number in few characters: millions, thousands, or all digits.
pub fn human_readable_size(n: u64) -> (r: String)
    ensures
        r@ == human_size(n as nat),
{
    let mut text = String::new();
    if n >= 1_000_000 {
        push_decimal(&mut text, n / 1_000_000);
        text.push('M');
    } else if n >= 1_000 {
        push_decimal(&mut text, n / 1_000);
        text.push('k');
    } else {
        push_decimal(&mut text, n);
    }
    assert(Seq::<char>::empty() + decimal(n as nat) == decimal(n as nat));
    assert(Seq::<char>::empty() + decimal(n as nat / 1_000) == decimal(n as nat / 1_000));
    assert(Seq::<char>::empty() + decimal(n as nat / 1_000_000) == decimal(n as nat / 1_000_000));
    text
}

/// The number of cells of the bar.
pub const BAR_WIDTH: usize = 10;

/// A bar whose first cells are filled.
pub open spec fn ctx_bar(filled: int) -> Seq<char> {
    Seq::new(
        BAR_WIDTH as nat,
        |i: int|
            if i < filled {
                '▓'
            } else {
                '░'
            },
    )
}

/// A bar of [`BAR_WIDTH`] cells, the first of them filled.
pub fn build_ctx_bar(filled: usize) -> (r: String)
    requires
        filled <= BAR_WIDTH,
    ensures
        r@ == ctx_bar(filled as int),
{
    let mut bar = String::new();
    let mut i: usize = 0;
    while i < BAR_WIDTH
        invariant
            i <= BAR_WIDTH,
            bar@ == ctx_bar(filled as int).take(i as int),
        decreases BAR_WIDTH - i,
    {
        if i < filled {
            bar.push('▓');
        } else {
            bar.push('░');
        }
        i += 1;
    }
    bar
}

/// How much of the context window is used.
pub struct Used {
    /// How many cells of the bar are filled.
    pub filled: usize,
    /// The percentage, in digits.
    pub percent: String,
}

/// The context window.
pub struct Context {
    /// Its size.
    pub size: u64,
    /// How much of it is used, where that is given.
    pub used: Option<Used>,
}

/// What is known of a session.
pub struct Status {
    /// The mode of the editor.
    pub mode: Option<String>,
    /// The name of the model.
    pub model: Option<String>,
    /// The context window.
    pub context: Option<Context>,
    /// All credits.
    pub quota_total: Option<String>,
    /// The credits that are left.
    pub quota_remaining: Option<String>,
    /// The directory of the session.
    pub cwd: Option<String>,
    /// The number of lines that were added.
    pub added: u64,
    /// The number of lines that were removed.
    pub removed: u64,
    /// The branch of the worktree.
    pub worktree_branch: Option<String>,
    /// The path of the worktree.
    pub worktree_path: Option<String>,
    /// The branch of the session's directory.
    pub branch: Option<String>,
    /// The home directory.
    pub home: Option<String>,
}

/// The view of a [`Context`].
pub struct ContextView {
    pub size: nat,
    pub used: Option<(int, Seq<char>)>,
}

/// The view of a [`Status`].
pub struct StatusView {
    pub mode: Option<Seq<char>>,
    pub model: Option<Seq<char>>,
    pub context: Option<ContextView>,
    pub quota_total: Option<Seq<char>>,
    pub quota_remaining: Option<Seq<char>>,
    pub cwd: Option<Seq<char>>,
    pub added: nat,
    pub removed: nat,
    pub worktree_branch: Option<Seq<char>>,
    pub worktree_path: Option<Seq<char>>,
    pub branch: Option<Seq<char>>,
    pub home: Option<Seq<char>>,
}

impl View for Context {
    type V = ContextView;

    open spec fn view(&self) -> ContextView {
        ContextView {
            size: self.size as nat,
            used: match self.used {
                Some(used) => Some((used.filled as int, used.percent@)),
                None => None,
            },
        }
    }
}

impl View for Status {
    type V = StatusView;

    open spec fn view(&self) -> StatusView {
        StatusView {
            mode: text_view(self.mode),
            model: text_view(self.model),
            context: match self.context {
                Some(context) => Some(context@),
                None => None,
            },
            quota_total: text_view(self.quota_total),
            quota_remaining: text_view(self.quota_remaining),
            cwd: text_view(self.cwd),
            added: self.added as nat,
            removed: self.removed as nat,
            worktree_branch: text_view(self.worktree_branch),
            worktree_path: text_view(self.worktree_path),
            branch: text_view(self.branch),
            home: text_view(self.home),
        }
    }
}

/// What is shown of the mode.
pub open spec fn mode_part(mode: Seq<char>) -> Seq<char> {
    "["@ + mode + "]"@
}

/// What is shown of the context window.
pub open spec fn context_part(context: ContextView) -> Seq<char> {
    let size = human_size(context.size) + " ctx"@;
    match context.used {
        Some((filled, percent)) => size + " "@ + ctx_bar(filled) + " "@ + percent + "%"@,
        None => size,
    }
}

/// What is shown of the credits.
pub open spec fn quota_part(remaining: Seq<char>, total: Seq<char>) -> Seq<char> {
    "额度: "@ + remaining + "/"@ + total
}

/// What is shown of the lines that were added and removed.
pub open spec fn lines_part(added: nat, removed: nat) -> Seq<char> {
    "+"@ + decimal(added) + "/-"@ + decimal(removed) + " lines"@
}

/// What is shown of a worktree.
pub open spec fn worktree_part(path: Seq<char>, branch: Seq<char>) -> Seq<char> {
    "worktree: "@ + path + " @ "@ + branch
}

/// What is shown of a branch.
pub open spec fn branch_part(branch: Seq<char>) -> Seq<char> {
    "branch: "@ + branch
}

/// The part, or no part where there is none.
pub open spec fn optional(part: Option<Seq<char>>) -> Seq<Seq<char>> {
    match part {
        Some(part) => seq![part],
        None => Seq::empty(),
    }
}

/// The parts of the first line: the mode, the model, the context window, and the credits
/// where both numbers are given.
pub open spec fn top_parts(status: StatusView) -> Seq<Seq<char>> {
    let mode = match status.mode {
        Some(mode) => Some(mode_part(mode)),
        None => None,
    };
    let context = match status.context {
        Some(context) => Some(context_part(context)),
        None => None,
    };
    let quota = match (status.quota_total, status.quota_remaining) {
        (Some(total), Some(remaining)) => Some(quota_part(remaining, total)),
        _ => None,
    };
    optional(mode) + optional(status.model) + optional(context) + optional(quota)
}

/// What is shown of the place in the repository: the worktree where its branch and path are
/// given, or else the branch.
pub open spec fn place_part(status: StatusView) -> Option<Seq<char>> {
    match (status.worktree_branch, status.worktree_path) {
        (Some(branch), Some(path)) => Some(worktree_part(shortened(path, status.home), branch)),
        _ => match status.branch {
            Some(branch) => Some(branch_part(branch)),
            None => None,
        },
    }
}

/// The parts of the second line: the directory, the lines that were added and removed, and
/// the place in the repository.
pub open spec fn bottom_parts(status: StatusView) -> Seq<Seq<char>> {
    optional(status.cwd) + seq![lines_part(status.added, status.removed)] + optional(
        place_part(status),
    )
}

/// The parts of a line, with bars between them.
pub open spec fn join_parts(parts: Seq<Seq<char>>) -> Seq<char>
    decreases parts.len(),
{
    if parts.len() == 0 {
        Seq::empty()
    } else if parts.len() == 1 {
        parts[0]
    } else {
        join_parts(parts.drop_last()) + " | "@ + parts.last()
    }
}

/// Two lines, of which an empty one is left out.
pub open spec fn two_lines(top: Seq<char>, bottom: Seq<char>) -> Seq<char> {
    if top.len() == 0 {
        bottom
    } else if bottom.len() == 0 {
        top
    } else {
        top + "\n"@ + bottom
    }
}

/// The status line of a session.
pub open spec fn status_text(status: StatusView) -> Seq<char> {
    two_lines(join_parts(top_parts(status)), join_parts(bottom_parts(status)))
}

/// The views of texts.
pub open spec fn text_views(texts: Seq<String>) -> Seq<Seq<char>> {
    Seq::new(texts.len(), |i: int| texts[i]@)
}

/// Joins the parts of a line.
fn join(parts: &Vec<String>) -> (r: String)
    ensures
        r@ == join_parts(text_views(parts@)),
{
    let mut line = String::new();
    let ghost views = text_views(parts@);
    let mut i: usize = 0;
    while i < parts.len()
        invariant
            i <= parts.len(),
            views == text_views(parts@),
            line@ == join_parts(views.take(i as int)),
        decreases parts.len() - i,
    {
        let ghost before = line@;
        assert(views.take(i + 1).drop_last() == views.take(i as int));
        if i > 0 {
            line.push_str(" | ");
        }
        line.push_str(parts[i].as_str());
        assert(i == 0 ==> before + views[0] == views[0]);
        i += 1;
    }
    assert(views.take(views.len() as int) == views);
    line
}

/// Writes out what is shown of the mode.
fn write_mode(mode: &str) -> (r: String)
    ensures
        r@ == mode_part(mode@),
{
    let mut part = "[".to_owned();
    part.push_str(mode);
    part.push_str("]");
    part
}

/// Writes out what is shown of the context window.
fn write_context(context: &Context) -> (r: String)
    requires
        context.used matches Some(used) ==> used.filled <= BAR_WIDTH,
    ensures
        r@ == context_part(context@),
{
    let mut part = human_readable_size(context.size);
    part.push_str(" ctx");
    if let Some(used) = &context.used {
        part.push_str(" ");
        part.push_str(build_ctx_bar(used.filled).as_str());
        part.push_str(" ");
        part.push_str(used.percent.as_str());
        part.push_str("%");
    }
    part
}

/// Writes out what is shown of the credits.
fn write_quota(remaining: &str, total: &str) -> (r: String)
    ensures
        r@ == quota_part(remaining@, total@),
{
    let mut part = "额度: ".to_owned();
    part.push_str(remaining);
    part.push_str("/");
    part.push_str(total);
    part
}

/// Writes out what is shown of the lines that were added and removed.
fn write_lines(added: u64, removed: u64) -> (r: String)
    ensures
        r@ == lines_part(added as nat, removed as nat),
{
    let mut part = "+".to_owned();
    push_decimal(&mut part, added);
    part.push_str("/-");
    push_decimal(&mut part, removed);
    part.push_str(" lines");
    part
}

/// Writes out what is shown of the place in the repository.
fn write_place(status: &Status) -> (r: Option<String>)
    ensures
        text_view(r) == place_part(status@),
{
    if let (Some(branch), Some(path)) = (&status.worktree_branch, &status.worktree_path) {
        let home = match &status.home {
            Some(home) => Some(home.as_str()),
            None => None,
        };
        let mut part = "worktree: ".to_owned();
        part.push_str(shorten_home(path.as_str(), home).as_str());
        part.push_str(" @ ");
        part.push_str(branch.as_str());
        return Some(part);
    }
    match &status.branch {
        Some(branch) => {
            let mut part = "branch: ".to_owned();
            part.push_str(branch.as_str());
            Some(part)
        },
        None => None,
    }
}

/// Appends a part, where there is one.
fn push_optional(parts: &mut Vec<String>, part: Option<String>)
    ensures
        text_views(final(parts)@) == text_views(old(parts)@) + optional(text_view(part)),
{
    if let Some(part) = part {
        parts.push(part);
    }
}

/// The first line of the status line.
fn top_line(status: &Status) -> (r: String)
    requires
        bar_fits(*status),
    ensures
        r@ == join_parts(top_parts(status@)),
{
    let mut parts: Vec<String> = Vec::new();
    let mode = match &status.mode {
        Some(mode) => Some(write_mode(mode.as_str())),
        None => None,
    };
    push_optional(&mut parts, mode);
    push_optional(&mut parts, status.model.clone());
    let context = match &status.context {
        Some(context) => Some(write_context(context)),
        None => None,
    };
    push_optional(&mut parts, context);
    let quota = match (&status.quota_total, &status.quota_remaining) {
        (Some(total), Some(remaining)) => Some(write_quota(remaining.as_str(), total.as_str())),
        _ => None,
    };
    push_optional(&mut parts, quota);
    assert(text_views(parts@) == top_parts(status@));
    join(&parts)
}

/// The second line of the status line.
fn bottom_line(status: &Status) -> (r: String)
    ensures
        r@ == join_parts(bottom_parts(status@)),
{
    let mut parts: Vec<String> = Vec::new();
    push_optional(&mut parts, status.cwd.clone());
    parts.push(write_lines(status.added, status.removed));
    push_optional(&mut parts, write_place(status));
    assert(text_views(parts@) == bottom_parts(status@));
    join(&parts)
}

/// No more cells of the bar are filled than it has.
pub open spec fn bar_fits(status: Status) -> bool {
    status.context matches Some(context) ==> (context.used matches Some(used) ==> used.filled
        <= BAR_WIDTH)
}

/// The status line of a session.
pub fn render(status: &Status) -> (r: String)
    requires
        bar_fits(*status),
    ensures
        r@ == status_text(status@),
{
    let mut text = top_line(status);
    let bottom = bottom_line(status);
    if !text.as_str().is_empty() && !bottom.as_str().is_empty() {
        text.push_str("\n");
    }
    text.push_str(bottom.as_str());
    text
}

/// What is known of a session by its fields, and by what was read from them and found out
/// besides: the context window, the numbers of lines, the branch and the home directory.
pub open spec fn session_status(
    fields: FieldsView,
    context: Option<ContextView>,
    added: nat,
    removed: nat,
    branch: Option<Seq<char>>,
    home: Option<Seq<char>>,
) -> StatusView {
    StatusView {
        mode: fields.mode,
        model: fields.model,
        context,
        quota_total: fields.quota_total,
        quota_remaining: fields.quota_remaining,
        cwd: fields.cwd,
        added,
        removed,
        worktree_branch: fields.worktree_branch,
        worktree_path: fields.worktree_path,
        branch,
        home,
    }
}

/// Puts together what is known of a session.
pub fn status_of(
    fields: Fields,
    context: Option<Context>,
    added: u64,
    removed: u64,
    branch: Option<String>,
    home: Option<String>,
) -> (r: Status)
    ensures
        r@ == session_status(
            fields@,
            match context {
                Some(context) => Some(context@),
                None => None,
            },
            added as nat,
            removed as nat,
            text_view(branch),
            text_view(home),
        ),
        r.context == context,
{
    Status {
        mode: fields.mode,
        model: fields.model,
        context,
        quota_total: fields.quota_total,
        quota_remaining: fields.quota_remaining,
        cwd: fields.cwd,
        added,
        removed,
        worktree_branch: fields.worktree_branch,
        worktree_path: fields.worktree_path,
        branch,
        home,
    }
}

/// What is printed: the status line, or what stands in for it where there is no document
/// that describes a session.
pub open spec fn line_text(status: Option<StatusView>) -> Seq<char> {
    match status {
        Some(status) => status_text(status),
        None => "+/- lines"@,
    }
}

/// The status line, or what stands in for it where there is no document that describes a
/// session.
pub fn line_of(status: Option<Status>) -> (r: String)
    requires
        status matches Some(status) ==> bar_fits(status),
    ensures
        r@ == line_text(
            match status {
                Some(status) => Some(status@),
                None => None,
            },
        ),
{
    match status {
        Some(status) => render(&status),
        None => "+/- lines".to_owned(),
    }
}

/// `part` stands somewhere in `text`.
pub open spec fn shows(text: Seq<char>, part: Seq<char>) -> bool {
    exists|before: Seq<char>, after: Seq<char>| text == #[trigger] (before + part + after)
}

proof fn lemma_shows(text: Seq<char>, part: Seq<char>, before: Seq<char>, after: Seq<char>)
    requires
        text == before + part + after,
    ensures
        shows(text, part),
{
}

/// Every part of a line is shown.
pub proof fn parts_are_shown(parts: Seq<Seq<char>>, i: int)
    requires
        0 <= i < parts.len(),
    ensures
        shows(join_parts(parts), parts[i]),
    decreases parts.len(),
{
    let line = join_parts(parts);
    if parts.len() == 1 {
        lemma_shows(line, parts[0], Seq::empty(), Seq::empty());
    } else if i == parts.len() - 1 {
        let before = join_parts(parts.drop_last()) + " | "@;
        lemma_shows(line, parts[i], before, Seq::empty());
    } else {
        let start = parts.drop_last();
        parts_are_shown(start, i);
        let (before, after) = choose|before: Seq<char>, after: Seq<char>|
            join_parts(start) == #[trigger] (before + start[i] + after);
        let rest = after + " | "@ + parts.last();
        assert(line == before + parts[i] + rest);
        lemma_shows(line, parts[i], before, rest);
    }
}

proof fn lemma_lines_part(added: nat, removed: nat)
    ensures
        lines_part(added, removed).len() > 0,
{
    reveal_strlit("+");
}

/// The second line is never empty: the lines that were added and removed are always shown
/// on it. So both lines are shown, with a line break between them, or the second one alone
/// where nothing is on the first.
pub proof fn second_line_is_never_empty(status: StatusView)
    ensures
        ({
            let top = join_parts(top_parts(status));
            let bottom = join_parts(bottom_parts(status));
            &&& bottom.len() > 0
            &&& shows(bottom, lines_part(status.added, status.removed))
            &&& status_text(status) == if top.len() > 0 {
                top + "\n"@ + bottom
            } else {
                bottom
            }
        }),
{
    let parts = bottom_parts(status);
    let bottom = join_parts(parts);
    let lines = lines_part(status.added, status.removed);
    let i = optional(status.cwd).len() as int;
    assert(parts[i] == lines);
    parts_are_shown(parts, i);
    lemma_lines_part(status.added, status.removed);
    let (before, after) = choose|before: Seq<char>, after: Seq<char>|
        bottom == #[trigger] (before + lines + after);
    assert(bottom.len() == before.len() + lines.len() + after.len());
}

/// Where nothing is known for the first line, the second one is all that is shown.
pub proof fn second_line_alone(status: StatusView)
    requires
        status.mode is None,
        status.model is None,
        status.context is None,
        status.quota_total is None || status.quota_remaining is None,
    ensures
        status_text(status) == join_parts(bottom_parts(status)),
{
    assert(top_parts(status) == Seq::<Seq<char>>::empty());
}

/// Credits of which one number is missing are left out.
pub proof fn half_of_the_credits_is_left_out(status: StatusView)
    requires
        status.quota_total is None || status.quota_remaining is None,
    ensures
        status_text(status) == status_text(
            StatusView { quota_total: None, quota_remaining: None, ..status },
        ),
{
}

/// A worktree whose branch and path are given is shown in place of the branch.
pub proof fn worktree_hides_branch(status: StatusView, other: Option<Seq<char>>)
    requires
        status.worktree_branch is Some,
        status.worktree_path is Some,
    ensures
        status_text(status) == status_text(StatusView { branch: other, ..status }),
{
}

/// No line break stands in a text that is given.
pub open spec fn unbroken(text: Option<Seq<char>>) -> bool {
    text matches Some(text) ==> !text.contains('\n')
}

/// No line break stands in what is known of a session.
pub open spec fn all_unbroken(status: StatusView) -> bool {
    &&& unbroken(status.mode)
    &&& unbroken(status.model)
    &&& status.context matches Some(context) ==> (context.used matches Some(used)
        ==> !used.1.contains('\n'))
    &&& unbroken(status.quota_total)
    &&& unbroken(status.quota_remaining)
    &&& unbroken(status.cwd)
    &&& unbroken(status.worktree_branch)
    &&& unbroken(status.worktree_path)
    &&& unbroken(status.branch)
    &&& unbroken(status.home)
}

proof fn lemma_join_unbroken(parts: Seq<Seq<char>>)
    requires
        forall|i: int| 0 <= i < parts.len() ==> !(#[trigger] parts[i]).contains('\n'),
    ensures
        !join_parts(parts).contains('\n'),
    decreases parts.len(),
{
    reveal_strlit(" | ");
    if parts.len() == 1 {
        assert(!parts[0].contains('\n'));
    } else if parts.len() > 1 {
        let start = parts.drop_last();
        assert forall|i: int| 0 <= i < start.len() implies !(#[trigger] start[i]).contains(
            '\n',
        ) by {
            assert(start[i] == parts[i]);
        }
        lemma_join_unbroken(start);
        assert(!parts[parts.len() - 1].contains('\n'));
        lemma_unbroken(join_parts(start), " | "@);
        lemma_unbroken(join_parts(start) + " | "@, parts.last());
    }
}

proof fn lemma_unbroken(a: Seq<char>, b: Seq<char>)
    requires
        !a.contains('\n'),
        !b.contains('\n'),
    ensures
        !(a + b).contains('\n'),
{
    if (a + b).contains('\n') {
        let i = choose|i: int| 0 <= i < (a + b).len() && (a + b)[i] == '\n';
        if i < a.len() {
            assert(a[i] == '\n');
        } else {
            assert(b[i - a.len()] == '\n');
        }
    }
}

proof fn lemma_decimal_unbroken(n: nat)
    ensures
        !decimal(n).contains('\n'),
{
    crate::text::digits_of_number(n);
    if decimal(n).contains('\n') {
        let i = choose|i: int| 0 <= i < decimal(n).len() && decimal(n)[i] == '\n';
        assert('0' <= decimal(n)[i]);
    }
}

proof fn lemma_context_unbroken(context: ContextView)
    requires
        context.used matches Some(used) ==> !used.1.contains('\n'),
    ensures
        !context_part(context).contains('\n'),
{
    reveal_strlit(" ctx");
    reveal_strlit(" ");
    reveal_strlit("%");
    lemma_decimal_unbroken(context.size);
    lemma_decimal_unbroken(context.size / 1_000);
    lemma_decimal_unbroken(context.size / 1_000_000);
    assert(seq!['M'].len() == 1 && seq!['k'].len() == 1);
    lemma_unbroken(decimal(context.size / 1_000), seq!['k']);
    lemma_unbroken(decimal(context.size / 1_000_000), seq!['M']);
    assert(decimal(context.size / 1_000).push('k') == decimal(context.size / 1_000) + seq!['k']);
    assert(decimal(context.size / 1_000_000).push('M') == decimal(context.size / 1_000_000) + seq![
        'M',
    ]);
    let size = human_size(context.size);
    lemma_unbroken(size, " ctx"@);
    if let Some((filled, percent)) = context.used {
        let a = size + " ctx"@;
        lemma_unbroken(a, " "@);
        lemma_unbroken(a + " "@, ctx_bar(filled));
        lemma_unbroken(a + " "@ + ctx_bar(filled), " "@);
        lemma_unbroken(a + " "@ + ctx_bar(filled) + " "@, percent);
        lemma_unbroken(a + " "@ + ctx_bar(filled) + " "@ + percent, "%"@);
    }
}

proof fn lemma_shortened_unbroken(path: Seq<char>, home: Option<Seq<char>>)
    requires
        !path.contains('\n'),
    ensures
        !shortened(path, home).contains('\n'),
{
    let plain = crate::home::normalized(path);
    assert(!plain.contains('\n')) by {
        if plain.contains('\n') {
            let i = choose|i: int| 0 <= i < plain.len() && plain[i] == '\n';
            assert(plain[i] == crate::home::forward(path[i]));
            assert(path[i] == '\n');
        }
    }
    if let Some(home) = home {
        let n = crate::home::normalized(home).len() as int;
        if n <= plain.len() {
            let rest = plain.skip(n);
            assert(!rest.contains('\n')) by {
                if rest.contains('\n') {
                    let i = choose|i: int| 0 <= i < rest.len() && rest[i] == '\n';
                    assert(plain[i + n] == '\n');
                }
            }
            lemma_unbroken(seq!['~'], rest);
        }
    }
}

proof fn lemma_place_unbroken(status: StatusView)
    requires
        all_unbroken(status),
    ensures
        unbroken(place_part(status)),
{
    reveal_strlit("worktree: ");
    reveal_strlit(" @ ");
    reveal_strlit("branch: ");
    if let (Some(branch), Some(path)) = (status.worktree_branch, status.worktree_path) {
        let short = shortened(path, status.home);
        lemma_shortened_unbroken(path, status.home);
        lemma_unbroken("worktree: "@, short);
        lemma_unbroken("worktree: "@ + short, " @ "@);
        lemma_unbroken("worktree: "@ + short + " @ "@, branch);
    } else if let Some(branch) = status.branch {
        lemma_unbroken("branch: "@, branch);
    }
}

/// There are two lines at most: where no text that is given holds a line break, neither line
/// does.
pub proof fn two_lines_at_most(status: StatusView)
    requires
        all_unbroken(status),
    ensures
        !join_parts(top_parts(status)).contains('\n'),
        !join_parts(bottom_parts(status)).contains('\n'),
{
    reveal_strlit("[");
    reveal_strlit("]");
    reveal_strlit("额度: ");
    reveal_strlit("/");
    reveal_strlit("+");
    reveal_strlit("/-");
    reveal_strlit(" lines");
    if let Some(mode) = status.mode {
        lemma_unbroken("["@, mode);
        lemma_unbroken("["@ + mode, "]"@);
    }
    if let Some(context) = status.context {
        lemma_context_unbroken(context);
    }
    if let (Some(total), Some(remaining)) = (status.quota_total, status.quota_remaining) {
        lemma_unbroken("额度: "@, remaining);
        lemma_unbroken("额度: "@ + remaining, "/"@);
        lemma_unbroken("额度: "@ + remaining + "/"@, total);
    }
    let added = decimal(status.added);
    let removed = decimal(status.removed);
    lemma_decimal_unbroken(status.added);
    lemma_decimal_unbroken(status.removed);
    lemma_unbroken("+"@, added);
    lemma_unbroken("+"@ + added, "/-"@);
    lemma_unbroken("+"@ + added + "/-"@, removed);
    lemma_unbroken("+"@ + added + "/-"@ + removed, " lines"@);
    lemma_place_unbroken(status);
    lemma_join_unbroken(top_parts(status));
    lemma_join_unbroken(bottom_parts(status));
}

} // verus!
