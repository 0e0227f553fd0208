//! The document of a session, and the two lines that are shown of it.
use qoder_statusline::fields::{read_fields, Fields};
use qoder_statusline::json::{
    get_number_text, get_text, is_session, number_in, parse_session, text_in, Node,
};
use qoder_statusline::status::{
    build_ctx_bar, human_readable_size, line_of, render, status_of, Context, Status, Used,
};

fn text(s: &str) -> Option<String> {
    Some(s.to_string())
}

fn empty() -> Status {
    Status {
        mode: None,
        model: None,
        context: None,
        quota_total: None,
        quota_remaining: None,
        cwd: None,
        added: 0,
        removed: 0,
        worktree_branch: None,
        worktree_path: None,
        branch: None,
        home: None,
    }
}

fn full() -> Status {
    Status {
        mode: text("INSERT"),
        model: text("dfmodel"),
        context: Some(Context {
            size: 1_000_000,
            used: Some(Used { filled: 4, percent: "37".to_string() }),
        }),
        quota_total: text("1000"),
        quota_remaining: text("820"),
        cwd: text("D:\\code\\demo"),
        added: 12,
        removed: 3,
        worktree_branch: None,
        worktree_path: None,
        branch: text("main"),
        home: text("C:\\Users\\me"),
    }
}

#[test]
fn all_parts_are_shown() {
    assert_eq!(
        render(&full()),
        "[INSERT] | dfmodel | 1M ctx ▓▓▓▓░░░░░░ 37% | 额度: 820/1000\nD:\\code\\demo | +12/-3 lines | branch: main"
    );
}

#[test]
fn nothing_known() {
    assert_eq!(render(&empty()), "+0/-0 lines");
}

#[test]
fn second_line_is_always_there() {
    let status = Status { model: text("m"), ..empty() };
    assert_eq!(render(&status), "m\n+0/-0 lines");
    let status = Status { cwd: text("/srv"), ..empty() };
    assert_eq!(render(&status), "/srv | +0/-0 lines");
    assert_eq!(render(&full()).lines().count(), 2);
}

#[test]
fn context_without_percentage() {
    let context = Some(Context { size: 200_000, used: None });
    assert_eq!(render(&Status { context, ..empty() }), "200k ctx\n+0/-0 lines");
}

#[test]
fn credits_need_both_numbers() {
    let one = Status { quota_total: text("5"), ..empty() };
    assert_eq!(render(&one), "+0/-0 lines");
    let other = Status { quota_remaining: text("5"), ..empty() };
    assert_eq!(render(&other), "+0/-0 lines");
    let both = Status { quota_remaining: text("4"), quota_total: text("5"), ..empty() };
    assert_eq!(render(&both), "额度: 4/5\n+0/-0 lines");
}

#[test]
fn worktree_is_shown_in_place_of_the_branch() {
    let status = Status {
        worktree_branch: text("feature"),
        worktree_path: text("C:\\Users\\Me\\wt"),
        ..full()
    };
    assert!(render(&status).ends_with("D:\\code\\demo | +12/-3 lines | worktree: ~/wt @ feature"));
    let other = Status {
        worktree_branch: text("feature"),
        worktree_path: text("C:\\Users\\Me\\wt"),
        branch: None,
        ..full()
    };
    assert_eq!(render(&status), render(&other));
    // with one of the two the branch is shown
    let half = Status { worktree_branch: text("feature"), ..full() };
    assert!(render(&half).ends_with(" | branch: main"));
    let half = Status { worktree_path: text("/wt"), ..full() };
    assert!(render(&half).ends_with(" | branch: main"));
}

#[test]
fn sizes() {
    assert_eq!(human_readable_size(0), "0");
    assert_eq!(human_readable_size(999), "999");
    assert_eq!(human_readable_size(1_000), "1k");
    assert_eq!(human_readable_size(200_999), "200k");
    assert_eq!(human_readable_size(999_999), "999k");
    assert_eq!(human_readable_size(1_000_000), "1M");
    assert_eq!(human_readable_size(u64::MAX), "18446744073709M");
}

#[test]
fn bars() {
    assert_eq!(build_ctx_bar(0), "░░░░░░░░░░");
    assert_eq!(build_ctx_bar(3), "▓▓▓░░░░░░░");
    assert_eq!(build_ctx_bar(10), "▓▓▓▓▓▓▓▓▓▓");
}

#[test]
fn no_document() {
    assert_eq!(line_of(None), "+/- lines");
    for raw in ["", "  ", "{", "[]", "12", "\"text\"", "true", "{} x"] {
        assert!(parse_session(raw).is_none(), "{raw}");
    }
}

#[test]
fn documents() {
    assert!(parse_session("null").is_some());
    assert!(parse_session("{}").is_some());
    // white space that JSON itself does not allow is taken away
    assert!(parse_session("\u{a0}\n {} \u{3000}").is_some());
}

fn fields(raw: &str) -> Fields {
    read_fields(&parse_session(raw).unwrap())
}

#[test]
fn texts_of_fields() {
    let root =
        parse_session(r#"{"a": "x", "b": "", "c": 1.5, "d": 20, "e": null, "f": {"g": "y"}}"#).unwrap();
    assert_eq!(get_text(&root, "/a"), text("x"));
    assert_eq!(get_text(&root, "/b"), None);
    assert_eq!(get_text(&root, "/c"), text("1.5"));
    assert_eq!(get_text(&root, "/d"), text("20"));
    assert_eq!(get_text(&root, "/e"), None);
    assert_eq!(get_text(&root, "/f"), None);
    assert_eq!(get_text(&root, "/f/g"), text("y"));
    assert_eq!(get_text(&root, "/z"), None);
    assert_eq!(get_number_text(&root, "/a"), text("x"));
    assert_eq!(get_number_text(&root, "/b"), text(""));
    assert_eq!(get_number_text(&root, "/c"), text("1.5"));
    assert_eq!(get_number_text(&root, "/e"), None);
    assert_eq!(get_number_text(&root, "/z"), None);
}

#[test]
fn texts_of_nodes() {
    assert_eq!(text_in(Node::Text("x".to_string())), text("x"));
    assert_eq!(text_in(Node::Text(String::new())), None);
    assert_eq!(text_in(Node::Number("1".to_string())), text("1"));
    assert_eq!(text_in(Node::Array), None);
    assert_eq!(number_in(Node::Text(String::new())), text(""));
    assert_eq!(number_in(Node::Number("1".to_string())), text("1"));
    assert_eq!(number_in(Node::Bool), None);
    assert!(is_session(&Node::Null) && is_session(&Node::Object));
    assert!(!is_session(&Node::Array) && !is_session(&Node::Bool));
}

#[test]
fn written_numbers_are_read_as_they_are() {
    // the digits of a number are read as the number that the document holds
    for raw in ["37.5", "1e300", "-0.0", "18446744073709551615", "-9223372036854775808", "0.1"] {
        let root = parse_session(&format!("{{\"n\": {raw}}}")).unwrap();
        let digits = get_number_text(&root, "/n").unwrap();
        let value: f64 = digits.parse().unwrap();
        let held = root.pointer("/n").unwrap().as_f64().unwrap();
        assert_eq!(value.to_bits(), held.to_bits());
    }
}

#[test]
fn fields_of_a_session() {
    let f = fields(
        r#"{"vim": {"mode": "NORMAL"}, "model": {"display_name": "m"},
            "context_window": {"context_window_size": 1000000, "used_percentage": "37.5"},
            "credits": {"user_quota": {"total": 1000}, "total_remaining": "820"},
            "cwd": "/a", "workspace": {"current_dir": "/b"},
            "cost": {"total_lines_added": 12, "total_lines_removed": 3},
            "worktree": {"branch": "f", "path": "/w"}}"#,
    );
    assert_eq!(f.mode, text("NORMAL"));
    assert_eq!(f.model, text("m"));
    assert_eq!(f.context_size, text("1000000"));
    assert_eq!(f.used_percentage, text("37.5"));
    assert_eq!(f.quota_total, text("1000"));
    assert_eq!(f.quota_remaining, text("820"));
    assert_eq!(f.cwd, text("/a"));
    assert_eq!(f.git_cwd, text("/b"));
    assert_eq!(f.lines_added, text("12"));
    assert_eq!(f.lines_removed, text("3"));
    assert_eq!(f.worktree_branch, text("f"));
    assert_eq!(f.worktree_path, text("/w"));
    assert_eq!(f.branch_dir(), None);
}

#[test]
fn directories_stand_in_for_each_other() {
    let f = fields(r#"{"cwd": "/a"}"#);
    assert_eq!((f.cwd.clone(), f.git_cwd.clone()), (text("/a"), text("/a")));
    assert_eq!(f.branch_dir(), Some("/a"));
    let f = fields(r#"{"cwd": "", "workspace": {"current_dir": "/b"}}"#);
    assert_eq!((f.cwd.clone(), f.git_cwd.clone()), (text("/b"), text("/b")));
    let f = fields("null");
    assert_eq!((f.cwd.clone(), f.git_cwd.clone()), (None, None));
    assert_eq!(f.branch_dir(), None);
    // half a worktree is none
    let f = fields(r#"{"cwd": "/a", "worktree": {"branch": "x"}}"#);
    assert_eq!(f.branch_dir(), Some("/a"));
}

#[test]
fn line_of_a_session() {
    let f = fields(
        r#"{"vim": {"mode": "INSERT"}, "model": {"display_name": "dfmodel"},
            "credits": {"user_quota": {"total": 1000}, "total_remaining": 820},
            "cwd": "D:\\code\\demo"}"#,
    );
    let context = Some(Context {
        size: 1_000_000,
        used: Some(Used { filled: 4, percent: "37".to_string() }),
    });
    let status = status_of(f, context, 12, 3, text("main"), text("C:\\Users\\me"));
    assert_eq!(line_of(Some(status)), render(&full()));
    let f = fields(r#"{"worktree": {"branch": "b", "path": "/home/me/w"}}"#);
    let status = status_of(f, None, 0, 0, None, text("/home/me"));
    assert_eq!(line_of(Some(status)), "+0/-0 lines | worktree: ~/w @ b");
}
