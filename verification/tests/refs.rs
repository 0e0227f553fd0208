//! References, tags, and the search for the tag of a commit.
use qoder_statusline::adler::adler32;
use qoder_statusline::hex::hex_to_sha;
use qoder_statusline::index::IDX_HEADER;
use qoder_statusline::object::{loose_object, object_path, tag_target};
use qoder_statusline::packed_refs::find_packed_tag;
use qoder_statusline::refs::{
    common_git_dir, detached_label, locate_git_dir, read_head, DotGit, GitDir, Head,
};
use qoder_statusline::scan::PackScan;
use qoder_statusline::search::{TagSearch, TagStep};
use qoder_statusline::tags::{collect_loose_tags, RefEntry};

const COMMIT: &str = "44c304ec84d5fbd8588c1af8bc71b1edb9663380";
const OTHER: &str = "1b8e3dcd2338550ae5198bdb2a7bae56df5bf2e0";
const THIRD: &str = "aaaaaaaaaaaaaaaaaaaaaaaaaaaaaaaaaaaaaaaa";

/// The file of a loose tag object that names `COMMIT`.
const LOOSE_TAG: &[u8] = &[
    120, 218, 29, 140, 65, 10, 194, 64, 12, 0, 61, 231, 21, 185, 11, 178, 113, 179, 109, 4, 145, 250,
    148, 77, 54, 45, 10, 165, 82, 130, 216, 223, 107, 157, 195, 48, 167, 137, 58, 33, 37, 62, 44,
    250, 116, 11, 100, 182, 156, 216, 77, 184, 149, 81, 155, 20, 17, 163, 58, 138, 90, 79, 74, 222,
    244, 210, 117, 57, 75, 130, 216, 94, 142, 182, 204, 243, 35, 32, 126, 143, 55, 157, 206, 123, 76,
    190, 226, 29, 175, 117, 208, 27, 82, 95, 74, 250, 131, 199, 221, 0, 31, 248, 2, 52, 251, 30, 201,
];

fn text(s: &str) -> Option<String> {
    Some(s.to_string())
}

fn file(name: &str, content: &str) -> RefEntry {
    RefEntry::File { name: name.to_string(), content: text(content) }
}

fn dir(name: &str, entries: Vec<RefEntry>) -> RefEntry {
    RefEntry::Dir { name: name.to_string(), entries }
}

fn collect(entries: Vec<RefEntry>, sha: &str) -> (Option<String>, Vec<(String, String)>) {
    let mut pending = Vec::new();
    let hit = collect_loose_tags(&entries, "", sha, &mut pending);
    (hit, pending.into_iter().map(|tag| (tag.name, tag.sha)).collect())
}

fn pair(name: &str, sha: &str) -> (String, String) {
    (name.to_string(), sha.to_string())
}

#[test]
fn git_directories() {
    assert!(matches!(locate_git_dir(DotGit::Directory), GitDir::Here));
    assert!(matches!(locate_git_dir(DotGit::Missing), GitDir::Above));
    assert!(matches!(locate_git_dir(DotGit::File(None)), GitDir::Nowhere));
    assert!(matches!(locate_git_dir(DotGit::File(text("no pointer"))), GitDir::Nowhere));
    for content in ["gitdir: /r/.git/worktrees/w\n", "gitdir:/r/.git/worktrees/w", " gitdir:  /r/.git/worktrees/w \r\n"] {
        match locate_git_dir(DotGit::File(text(content))) {
            GitDir::At(path) => assert_eq!(path, "/r/.git/worktrees/w"),
            _ => panic!("{content}"),
        }
    }
}

#[test]
fn common_directories() {
    assert_eq!(common_git_dir(text("../..\n")), text("../.."));
    assert_eq!(common_git_dir(None), None);
}

#[test]
fn heads() {
    match read_head(text("ref: refs/heads/feature/x\n")) {
        Head::Branch(name) => assert_eq!(name, "feature/x"),
        _ => panic!("no branch"),
    }
    match read_head(text(&format!("{COMMIT}\n"))) {
        Head::Detached(sha) => assert_eq!(sha, COMMIT),
        _ => panic!("no commit"),
    }
    for content in ["", "\n", "ref: refs/remotes/x", "not hexadecimal"] {
        assert!(matches!(read_head(text(content)), Head::Unknown));
    }
    assert!(matches!(read_head(None), Head::Unknown));
}

#[test]
fn labels_of_commits() {
    assert_eq!(detached_label(COMMIT, text("v1")), "v1");
    assert_eq!(detached_label(COMMIT, None), "44c304e");
    assert_eq!(detached_label("44c3", None), "44c3");
}

#[test]
fn targets_of_tags() {
    let tag = format!("object {COMMIT}\ntype commit\ntag v1\n");
    assert_eq!(tag_target(tag.as_bytes()), text(COMMIT));
    // the header of a loose object, and white space behind the name
    assert_eq!(tag_target(format!("tag 149\0{tag}").as_bytes()), text(COMMIT));
    assert_eq!(tag_target(format!("object {COMMIT} \r\n").as_bytes()), text(COMMIT));
    assert_eq!(tag_target(format!("object {COMMIT}").as_bytes()), text(COMMIT));
}

#[test]
fn objects_without_a_target() {
    assert_eq!(tag_target(format!("tree {COMMIT}\n").as_bytes()), None);
    assert_eq!(tag_target(b"object 44c304e\n"), None);
    assert_eq!(tag_target(b""), None);
    assert_eq!(tag_target(b"object \xff\xfe\n"), None);
    // a zero byte that is no end of a header
    let late = format!("{}\0object {COMMIT}\n", "x".repeat(32));
    assert_eq!(tag_target(late.as_bytes()), None);
    let early = format!("{}\0object {COMMIT}\n", "x".repeat(31));
    assert_eq!(tag_target(early.as_bytes()), text(COMMIT));
}

#[test]
fn loose_objects() {
    let object = loose_object(LOOSE_TAG).unwrap();
    assert!(object.starts_with(b"tag 104\0object "));
    assert_eq!(tag_target(&object), text(COMMIT));
    assert_eq!(loose_object(&LOOSE_TAG[..40]), None);
    assert_eq!(object_path(COMMIT), pair("44", "c304ec84d5fbd8588c1af8bc71b1edb9663380"));
    assert_eq!(object_path("ab"), pair("ab", ""));
    assert_eq!(object_path("éa"), pair("é", "a"));
}

#[test]
fn loose_objects_longer_than_the_limit() {
    // one stored block that holds a tag with a long message
    let object = format!("tag 1047\0object {COMMIT}\n{}", "message ".repeat(125));
    let len = object.len() as u16;
    let mut data = vec![0x78, 0x01, 1];
    data.extend_from_slice(&len.to_le_bytes());
    data.extend_from_slice(&(!len).to_le_bytes());
    data.extend_from_slice(object.as_bytes());
    data.extend_from_slice(&adler32(object.as_bytes()).to_be_bytes());
    let start = loose_object(&data).unwrap();
    assert_eq!(start, &object.as_bytes()[..256]);
    assert_eq!(tag_target(&start), tag_target(object.as_bytes()));
    assert_eq!(tag_target(&start), text(COMMIT));
}

#[test]
fn nearest_directory_decides() {
    let levels = vec![
        DotGit::Missing,
        DotGit::Missing,
        DotGit::File(text("gitdir: ../.git/worktrees/w\n")),
        DotGit::Directory,
    ];
    let mut up = 0;
    for found in levels {
        match locate_git_dir(found) {
            GitDir::Above => up += 1,
            GitDir::At(path) => {
                assert_eq!((up, path.as_str()), (2, "../.git/worktrees/w"));
                return;
            }
            _ => panic!("the nearest is passed over"),
        }
    }
    panic!("the walk ends without a git directory");
}

#[test]
fn packed_tags() {
    let refs = format!(
        "# pack-refs with: peeled fully-peeled sorted\n{OTHER} refs/heads/main\n{COMMIT} refs/tags/v1\n{OTHER} refs/tags/v2\n^{THIRD}\n"
    );
    assert_eq!(find_packed_tag(&refs, COMMIT), text("v1"));
    assert_eq!(find_packed_tag(&refs, OTHER), text("v2"));
    assert_eq!(find_packed_tag(&refs, THIRD), text("v2"));
    assert_eq!(find_packed_tag(&refs.replace('\n', "\r\n"), THIRD), text("v2"));
    assert_eq!(find_packed_tag(&refs, &THIRD.replace('a', "b")), None);
    assert_eq!(find_packed_tag("", COMMIT), None);
}

#[test]
fn peeled_lines_belong_to_the_tag_before() {
    // the line before is about a branch
    let refs = format!("{OTHER} refs/heads/main\n^{COMMIT}\n");
    assert_eq!(find_packed_tag(&refs, COMMIT), None);
    // a second such line belongs to nothing
    let refs = format!("{OTHER} refs/tags/a\n^{THIRD}\n^{COMMIT}\n");
    assert_eq!(find_packed_tag(&refs, COMMIT), None);
    // a comment and a line that is no reference stand in between
    let refs = format!("{OTHER} refs/tags/a\n# note\nnote\n^{COMMIT}");
    assert_eq!(find_packed_tag(&refs, COMMIT), text("a"));
}

#[test]
fn loose_tags_by_value() {
    let (hit, pending) = collect(
        vec![
            file("v1", &format!("{OTHER}\n")),
            dir("release", vec![file("v2.0.3", &format!("{COMMIT}\n")), file("late", THIRD)]),
            file("v3", THIRD),
        ],
        COMMIT,
    );
    assert_eq!(hit, text("release/v2.0.3"));
    assert_eq!(pending, [pair("v1", OTHER)]);
}

#[test]
fn loose_tags_that_may_be_annotated() {
    let (hit, pending) = collect(
        vec![
            file("a", OTHER),
            file("b.lock", COMMIT),
            file("c", "garbage"),
            RefEntry::File { name: "d".to_string(), content: None },
            dir("x.lock", vec![dir("y", vec![file("z", &format!(" {THIRD}\n"))])]),
            dir("empty", vec![]),
        ],
        COMMIT,
    );
    assert_eq!(hit, None);
    assert_eq!(pending, [pair("a", OTHER), pair("x.lock/y/z", THIRD)]);
}

#[test]
fn first_of_several_tags() {
    let (hit, _) = collect(vec![file("b", COMMIT), file("a", COMMIT)], COMMIT);
    assert_eq!(hit, text("b"));
}

fn annotated() -> Vec<RefEntry> {
    vec![file("v1", OTHER), file("v2", THIRD)]
}

fn start(entries: Vec<RefEntry>) -> (TagSearch, TagStep) {
    TagSearch::start(COMMIT.to_string(), &entries)
}

fn asks_for(step: &TagStep, sha: &str) -> bool {
    match step {
        TagStep::ReadObject { dir, file } => dir == &sha[..2] && file == &sha[2..],
        _ => false,
    }
}

fn finds(step: &TagStep, wanted: &str) -> bool {
    match step {
        TagStep::Found(name) => name == wanted,
        _ => false,
    }
}

#[test]
fn search_ends_with_a_value() {
    let (_, step) = start(vec![file("v1", OTHER), file("v0", COMMIT)]);
    assert!(finds(&step, "v0"));
}

#[test]
fn search_asks_for_loose_objects() {
    let (mut search, step) = start(annotated());
    assert!(asks_for(&step, OTHER));
    let step = search.on_object(None);
    assert!(asks_for(&step, THIRD));
    assert!(finds(&search.on_object(Some(LOOSE_TAG.to_vec())), "v2"));
}

#[test]
fn search_goes_on_with_packs() {
    let (mut search, _) = start(annotated());
    assert_eq!(search.candidates(), [hex_to_sha(OTHER).unwrap(), hex_to_sha(THIRD).unwrap()]);
    assert!(asks_for(&search.on_object(Some(b"no object".to_vec())), THIRD));
    assert!(matches!(search.on_object(None), TagStep::ReadPacks));
    let tag = |sha: &str| format!("object {sha}\ntype commit\n").into_bytes();
    assert!(finds(&search.on_packs(&vec![(1, tag(OTHER)), (0, tag(COMMIT))]), "v1"));
    assert!(matches!(search.on_packs(&vec![(1, tag(OTHER))]), TagStep::ReadPackedRefs));
    assert!(matches!(search.on_packs(&vec![]), TagStep::ReadPackedRefs));
}

#[test]
fn search_ends_with_packed_references() {
    let (search, step) = start(vec![]);
    assert!(matches!(step, TagStep::ReadPacks));
    assert!(search.candidates().is_empty());
    assert!(finds(&search.on_packed_refs(text(&format!("{COMMIT} refs/tags/old\n"))), "old"));
    assert!(matches!(search.on_packed_refs(text("")), TagStep::NotFound));
    assert!(matches!(search.on_packed_refs(None), TagStep::NotFound));
}

/// An index of one object, and the tag object that stands where it says.
fn pack_of(object: &str, target: &str) -> (Vec<u8>, Vec<u8>) {
    let sha = hex_to_sha(object).unwrap();
    let mut idx = vec![0xff, b't', b'O', b'c', 0, 0, 0, 2];
    for first in 0..=255u8 {
        idx.extend_from_slice(&u32::from(sha[0] <= first).to_be_bytes());
    }
    idx.extend_from_slice(&sha);
    idx.extend_from_slice(&[0; 4]);
    idx.extend_from_slice(&12u32.to_be_bytes());
    (idx, format!("object {target}\ntype commit\n").into_bytes())
}

#[test]
fn packed_object_of_a_tag_is_found() {
    let (mut search, _) = start(annotated());
    search.on_object(None);
    assert!(matches!(search.on_object(None), TagStep::ReadPacks));
    let mut scan = PackScan::new(search.candidates());
    for (idx, object) in [pack_of(OTHER, THIRD), pack_of(THIRD, COMMIT)] {
        assert!(scan.concerns(&idx[..IDX_HEADER]));
        let plan = scan.plan(&idx[..IDX_HEADER], &idx);
        assert_eq!(plan.len(), 1);
        assert_eq!(plan[0].1, 12);
        scan.take_in(&plan, vec![Some(object)]);
    }
    assert!(finds(&search.on_packs(&scan.into_hits()), "v2"));
}

#[test]
fn first_of_several_packed_tags() {
    let refs = format!(
        "{OTHER} refs/heads/main\n^{COMMIT}\n{OTHER} refs/tags/a\n# note\n^{COMMIT}\n{COMMIT} refs/tags/b\n"
    );
    assert_eq!(find_packed_tag(&refs, COMMIT), text("a"));
    let refs = format!("{COMMIT} refs/tags/b\n{OTHER} refs/tags/a\n^{COMMIT}\n");
    assert_eq!(find_packed_tag(&refs, COMMIT), text("b"));
}
