//! The tags that stand in files of their own.
use vstd::prelude::*;

use crate::hex::{is_hex, is_sha};
use crate::refs::text_view;
use crate::text::{chars_of, same_chars, text_of, trim, trimmed};

verus! {

/// An entry of a directory of references.
pub enum RefEntry {
    /// A directory with its entries, in the order in which they are listed.
    Dir { name: String, entries: Vec<RefEntry> },
    /// A file, with its content where it could be read as text.
    File { name: String, content: Option<String> },
}

/// A reference: its name, and the object name that is its value.
pub struct TagRef {
    pub name: String,
    pub sha: String,
}

/// The names and values of references.
pub open spec fn ref_views(refs: Seq<TagRef>) -> Seq<(Seq<char>, Seq<char>)> {
    Seq::new(refs.len(), |i: int| (refs[i].name@, refs[i].sha@))
}

/// The name of an entry below the references that `prefix` stands for.
pub open spec fn full_name(prefix: Seq<char>, name: Seq<char>) -> Seq<char> {
    if prefix.len() == 0 {
        name
    } else {
        prefix + seq!['/'] + name
    }
}

/// A file that git is about to rename to a reference.
pub open spec fn is_lock(name: Seq<char>) -> bool {
    ".lock"@.is_suffix_of(name)
}

/// The references below a directory entry.
pub open spec fn entry_files(entry: RefEntry, prefix: Seq<char>) -> Seq<(Seq<char>, Seq<char>)>
    decreases entry,
{
    match entry {
        RefEntry::Dir { name, entries } => loose_files(entries@, full_name(prefix, name@)),
        RefEntry::File { name, content } => match content {
            Some(text) if !is_lock(name@) => seq![(full_name(prefix, name@), trimmed(text@))],
            _ => Seq::empty(),
        },
    }
}

/// The references below a directory, in the order in which they are listed: the name of
/// each, relative to the top, and its value. Files that cannot be read and lock files are
/// none.
pub open spec fn loose_files(entries: Seq<RefEntry>, prefix: Seq<char>) -> Seq<
    (Seq<char>, Seq<char>),
>
    decreases entries,
{
    if entries.len() == 0 {
        Seq::empty()
    } else {
        entry_files(entries[0], prefix) + loose_files(entries.drop_first(), prefix)
    }
}

/// The name of the first reference whose value is `sha`.
pub open spec fn find_value(files: Seq<(Seq<char>, Seq<char>)>, sha: Seq<char>) -> Option<Seq<char>>
    decreases files.len(),
{
    if files.len() == 0 {
        None
    } else if files[0].1 == sha {
        Some(files[0].0)
    } else {
        find_value(files.drop_first(), sha)
    }
}

/// The references that may be annotated tags: those whose value is some other object name,
/// up to the first one whose value is `sha`.
pub open spec fn other_values(files: Seq<(Seq<char>, Seq<char>)>, sha: Seq<char>) -> Seq<
    (Seq<char>, Seq<char>),
>
    decreases files.len(),
{
    if files.len() == 0 || files[0].1 == sha {
        Seq::empty()
    } else if is_sha(files[0].1) {
        seq![files[0]] + other_values(files.drop_first(), sha)
    } else {
        other_values(files.drop_first(), sha)
    }
}

proof fn lemma_concat(
    a: Seq<(Seq<char>, Seq<char>)>,
    b: Seq<(Seq<char>, Seq<char>)>,
    sha: Seq<char>,
)
    ensures
        find_value(a + b, sha) == match find_value(a, sha) {
            Some(name) => Some(name),
            None => find_value(b, sha),
        },
        other_values(a + b, sha) == match find_value(a, sha) {
            Some(_) => other_values(a, sha),
            None => other_values(a, sha) + other_values(b, sha),
        },
    decreases a.len(),
{
    if a.len() == 0 {
        assert(a + b == b);
        assert(Seq::<(Seq<char>, Seq<char>)>::empty() + other_values(b, sha) == other_values(
            b,
            sha,
        ));
    } else {
        lemma_concat(a.drop_first(), b, sha);
        assert((a + b).drop_first() == a.drop_first() + b);
        assert((a + b)[0] == a[0]);
        if is_sha(a[0].1) && a[0].1 != sha {
            assert(seq![a[0]] + (other_values(a.drop_first(), sha) + other_values(b, sha)) == seq![
                a[0],
            ] + other_values(a.drop_first(), sha) + other_values(b, sha));
        }
    }
}

/// Every one of the other values is an object name.
pub proof fn lemma_other_values(files: Seq<(Seq<char>, Seq<char>)>, sha: Seq<char>)
    ensures
        forall|i: int|
            0 <= i < other_values(files, sha).len() ==> is_sha(
                (#[trigger] other_values(files, sha)[i]).1,
            ),
    decreases files.len(),
{
    if files.len() > 0 && files[0].1 != sha {
        lemma_other_values(files.drop_first(), sha);
        let rest = other_values(files.drop_first(), sha);
        if is_sha(files[0].1) {
            assert forall|i: int| 0 <= i < other_values(files, sha).len() implies is_sha(
                (#[trigger] other_values(files, sha)[i]).1,
            ) by {
                if i > 0 {
                    assert(other_values(files, sha)[i] == rest[i - 1]);
                }
            }
        }
    }
}

/// Whether a file is one that git is about to rename.
fn is_lock_name(name: &str) -> (r: bool)
    ensures
        r == is_lock(name@),
{
    let chars = chars_of(name);
    let lock = chars_of(".lock");
    if lock.len() > chars.len() {
        return false;
    }
    let (start, end) = chars.as_slice().split_at(chars.len() - lock.len());
    assert(end@ == name@.skip(name@.len() - ".lock"@.len()));
    assert(name@.subrange(name@.len() - ".lock"@.len(), name@.len() as int) == end@);
    same_chars(end, lock.as_slice())
}

/// The name of an entry below the references that `prefix` stands for.
fn join_name(prefix: &str, name: &str) -> (r: String)
    ensures
        r@ == full_name(prefix@, name@),
{
    let mut full = String::new();
    if !prefix.is_empty() {
        full.push_str(prefix);
        full.push('/');
    }
    full.push_str(name);
    assert(Seq::<char>::empty() + name@ == name@);
    assert(Seq::<char>::empty() + prefix@ == prefix@);
    full
}

/// Collects the references below a directory that may be annotated tags, and gives the name
/// of the first one whose value is `sha` itself. `prefix` is the name of the directory,
/// relative to the top; it is empty there.
pub fn collect_loose_tags(
    entries: &Vec<RefEntry>,
    prefix: &str,
    sha: &str,
    pending: &mut Vec<TagRef>,
) -> (r: Option<String>)
    ensures
        text_view(r) == find_value(loose_files(entries@, prefix@), sha@),
        ref_views(final(pending)@) == ref_views(old(pending)@) + other_values(
            loose_files(entries@, prefix@),
            sha@,
        ),
    decreases entries,
{
    let ghost all = loose_files(entries@, prefix@);
    let mut i: usize = 0;
    assert(entries@.skip(0) == entries@);
    while i < entries.len()
        invariant
            i <= entries.len(),
            all == loose_files(entries@, prefix@),
            find_value(all, sha@) == find_value(
                loose_files(entries@.skip(i as int), prefix@),
                sha@,
            ),
            ref_views(pending@) + other_values(
                loose_files(entries@.skip(i as int), prefix@),
                sha@,
            ) == ref_views(old(pending)@) + other_values(all, sha@),
        decreases entries.len() - i,
    {
        let ghost here = entry_files(entries@[i as int], prefix@);
        let ghost rest = loose_files(entries@.skip(i + 1), prefix@);
        let ghost before = ref_views(pending@);
        proof {
            let left = entries@.skip(i as int);
            assert(left.drop_first() == entries@.skip(i + 1));
            assert(loose_files(left, prefix@) == here + rest);
            lemma_concat(here, rest, sha@);
        }
        match &entries[i] {
            RefEntry::Dir { name, entries: below } => {
                let full = join_name(prefix, name.as_str());
                let hit = collect_loose_tags(below, full.as_str(), sha, pending);
                if hit.is_some() {
                    return hit;
                }
            },
            RefEntry::File { name, content } => {
                proof {
                    reveal_with_fuel(find_value, 2);
                    reveal_with_fuel(other_values, 2);
                }
                if !is_lock_name(name.as_str()) {
                    if let Some(text) = content {
                        let full = join_name(prefix, name.as_str());
                        let chars = chars_of(text.as_str());
                        let value = trim(chars.as_slice());
                        let wanted = chars_of(sha);
                        if same_chars(value, wanted.as_slice()) {
                            return Some(full);
                        }
                        if value.len() == 40 && is_hex(value) {
                            let found = TagRef { name: full, sha: text_of(value) };
                            pending.push(found);
                        }
                    }
                }
            },
        }
        assert(find_value(here, sha@) is None);
        assert(ref_views(pending@) == before + other_values(here, sha@));
        assert(before + (other_values(here, sha@) + other_values(rest, sha@)) == before
            + other_values(here, sha@) + other_values(rest, sha@));
        i += 1;
    }
    None
}

/// A tag whose value is the commit is found, and of several the one that is listed first.
pub proof fn first_value_is_found(files: Seq<(Seq<char>, Seq<char>)>, sha: Seq<char>, i: int)
    requires
        0 <= i < files.len(),
        files[i].1 == sha,
        forall|j: int| 0 <= j < i ==> (#[trigger] files[j]).1 != sha,
    ensures
        find_value(files, sha) == Some(files[i].0),
    decreases files.len(),
{
    if i > 0 {
        assert(files[0].1 != sha);
        first_value_is_found(files.drop_first(), sha, i - 1);
    }
}

/// Nothing is found where no tag has the commit as its value.
pub proof fn no_other_value_is_found(files: Seq<(Seq<char>, Seq<char>)>, sha: Seq<char>)
    requires
        forall|i: int| 0 <= i < files.len() ==> (#[trigger] files[i]).1 != sha,
    ensures
        find_value(files, sha) is None,
    decreases files.len(),
{
    if files.len() > 0 {
        assert(files[0].1 != sha);
        no_other_value_is_found(files.drop_first(), sha);
    }
}

} // verus!
