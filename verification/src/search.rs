//! The search for the tag that stands for a commit, step by step.
use vstd::prelude::*;

use crate::hex::{hex_to_sha, is_sha, sha_bytes};
use crate::inflate::zlib;
use crate::object::{
    header_does_not_matter, lemma_first_line_ends, lemma_sha_splits, loose_limit_suffices,
    loose_object, object_content, object_path, tag_start, tag_target, target_of,
    target_reads_back, LOOSE_LIMIT,
};
use crate::packed_refs::{find_packed_tag, packed_tag};
use crate::scan::{
    first_object, hit_for, lemma_hits_hold, no_name_is_hit_twice, scan,
    scan_finds_what_the_packs_hold, Pack,
};
use crate::tags::{
    collect_loose_tags, find_value, lemma_other_values, loose_files, other_values, ref_views,
    RefEntry, TagRef,
};
use crate::text::lemma_index_is;

verus! {

/// What the search needs next, or what it has found.
pub enum TagStep {
    /// The tag with this name stands for the commit.
    Found(String),
    /// The file of a loose object, in a directory of `objects`.
    ReadObject { dir: String, file: String },
    /// The objects that the packs hold.
    ReadPacks,
    /// The content of `packed-refs`.
    ReadPackedRefs,
    /// No tag stands for the commit.
    NotFound,
}

/// The view of a [`TagStep`].
pub enum StepView {
    /// The tag with this name stands for the commit.
    Found(Seq<char>),
    /// The file of a loose object, in a directory of `objects`.
    ReadObject { dir: Seq<char>, file: Seq<char> },
    /// The objects that the packs hold.
    ReadPacks,
    /// The content of `packed-refs`.
    ReadPackedRefs,
    /// No tag stands for the commit.
    NotFound,
}

impl View for TagStep {
    type V = StepView;

    open spec fn view(&self) -> StepView {
        match self {
            TagStep::Found(name) => StepView::Found(name@),
            TagStep::ReadObject { dir, file } => StepView::ReadObject { dir: dir@, file: file@ },
            TagStep::ReadPacks => StepView::ReadPacks,
            TagStep::ReadPackedRefs => StepView::ReadPackedRefs,
            TagStep::NotFound => StepView::NotFound,
        }
    }
}

/// How far the search has come: the commit, the tags that may be annotated (name and
/// object), and how many of their loose objects have been looked at.
#[verifier::ext_equal]
pub struct SearchState {
    pub sha: Seq<char>,
    pub annotated: Seq<(Seq<char>, Seq<char>)>,
    pub looked: int,
}

/// Loose objects come first, one by one, and then the packs.
pub open spec fn next_step(state: SearchState) -> StepView {
    if state.looked < state.annotated.len() {
        let object = state.annotated[state.looked].1;
        StepView::ReadObject { dir: object.take(2), file: object.skip(2) }
    } else {
        StepView::ReadPacks
    }
}

/// The search begins with the tags that stand in files of their own.
pub open spec fn begin(sha: Seq<char>, files: Seq<(Seq<char>, Seq<char>)>) -> (
    SearchState,
    StepView,
) {
    let state = SearchState { sha, annotated: other_values(files, sha), looked: 0 };
    match find_value(files, sha) {
        Some(name) => (state, StepView::Found(name)),
        None => (state, next_step(state)),
    }
}

/// The file of a loose object holds a tag object that names the commit.
pub open spec fn file_names(file: Option<Seq<u8>>, sha: Seq<char>) -> bool {
    &&& file is Some
    &&& zlib(file->0, LOOSE_LIMIT as int) matches Some(object) && target_of(object) == Some(sha)
}

/// The search goes on with the file of the loose object that was asked for, `None` where it
/// could not be read.
pub open spec fn after_object(state: SearchState, file: Option<Seq<u8>>) -> (
    SearchState,
    StepView,
) {
    let next = SearchState { looked: state.looked + 1, ..state };
    if file_names(file, state.sha) {
        (next, StepView::Found(state.annotated[state.looked].0))
    } else {
        (next, next_step(next))
    }
}

/// The tag whose packed object is the first that names the commit.
pub open spec fn packed_object_tag(
    annotated: Seq<(Seq<char>, Seq<char>)>,
    hits: Seq<(usize, Vec<u8>)>,
    sha: Seq<char>,
) -> Option<Seq<char>>
    decreases hits.len(),
{
    if hits.len() == 0 {
        None
    } else if target_of(hits[0].1@) == Some(sha) {
        Some(annotated[hits[0].0 as int].0)
    } else {
        packed_object_tag(annotated, hits.drop_first(), sha)
    }
}

/// The search goes on with the objects that the packs hold, each with the number of its
/// tag.
pub open spec fn after_packs(state: SearchState, hits: Seq<(usize, Vec<u8>)>) -> StepView {
    match packed_object_tag(state.annotated, hits, state.sha) {
        Some(name) => StepView::Found(name),
        None => StepView::ReadPackedRefs,
    }
}

/// The search ends with the content of `packed-refs`, `None` where it could not be read.
pub open spec fn after_packed_refs(state: SearchState, text: Option<Seq<char>>) -> StepView {
    match text {
        Some(text) => match packed_tag(text, None, state.sha) {
            Some(name) => StepView::Found(name),
            None => StepView::NotFound,
        },
        None => StepView::NotFound,
    }
}

/// The bytes of the object name by which tag number `i` is looked for in the packs.
pub open spec fn candidate(state: SearchState, i: int) -> Seq<u8> {
    sha_bytes(state.annotated[i].1)
}

/// The view of optional bytes.
pub open spec fn bytes_view(bytes: Option<Vec<u8>>) -> Option<Seq<u8>> {
    match bytes {
        Some(bytes) => Some(bytes@),
        None => None,
    }
}

/// Whether an object is a tag object that names the commit.
fn names_commit(object: &[u8], sha: &String) -> (r: bool)
    ensures
        r == (target_of(object@) == Some(sha@)),
{
    match tag_target(object) {
        Some(target) => target == *sha,
        None => false,
    }
}

/// The search for the tag that stands for a commit.
pub struct TagSearch {
    sha: String,
    annotated: Vec<TagRef>,
    looked: usize,
}

impl View for TagSearch {
    type V = SearchState;

    closed spec fn view(&self) -> SearchState {
        SearchState {
            sha: self.sha@,
            annotated: ref_views(self.annotated@),
            looked: self.looked as int,
        }
    }
}

impl TagSearch {
    /// The tags that may be annotated have object names as their values, and no more of
    /// them have been looked at than there are.
    pub open spec fn wf(&self) -> bool {
        &&& 0 <= self@.looked <= self@.annotated.len()
        &&& forall|i: int|
            0 <= i < self@.annotated.len() ==> is_sha((#[trigger] self@.annotated[i]).1)
    }

    /// Begins the search for the tag of the commit `sha`, with the entries of `refs/tags`.
    pub fn start(sha: String, entries: &Vec<RefEntry>) -> (r: (TagSearch, TagStep))
        ensures
            r.0.wf(),
            (r.0@, r.1@) == begin(sha@, loose_files(entries@, Seq::empty())),
    {
        let mut annotated: Vec<TagRef> = Vec::new();
        proof {
            reveal_strlit("");
            assert(""@ == Seq::<char>::empty());
        }
        let hit = collect_loose_tags(entries, "", sha.as_str(), &mut annotated);
        let ghost files = loose_files(entries@, Seq::empty());
        proof {
            lemma_other_values(files, sha@);
            assert(ref_views(annotated@) == other_values(files, sha@));
        }
        let search = TagSearch { sha, annotated, looked: 0 };
        match hit {
            Some(name) => (search, TagStep::Found(name)),
            None => {
                let step = search.next();
                (search, step)
            },
        }
    }

    /// What the search needs after some loose objects have been looked at.
    fn next(&self) -> (r: TagStep)
        requires
            self.wf(),
        ensures
            r@ == next_step(self@),
    {
        if self.looked < self.annotated.len() {
            let ghost k = self.looked as int;
            assert(self@.annotated[k].1 == self.annotated@[k].sha@);
            proof {
                lemma_sha_splits(self@.annotated[k].1);
            }
            let (dir, file) = object_path(self.annotated[self.looked].sha.as_str());
            TagStep::ReadObject { dir, file }
        } else {
            TagStep::ReadPacks
        }
    }

    /// Goes on with the file of the loose object that was asked for.
    pub fn on_object(&mut self, file: Option<Vec<u8>>) -> (r: TagStep)
        requires
            old(self).wf(),
            old(self)@.looked < old(self)@.annotated.len(),
        ensures
            final(self).wf(),
            (final(self)@, r@) == after_object(old(self)@, bytes_view(file)),
    {
        let k = self.looked;
        assert(k < self.annotated.len());
        self.looked = k + 1;
        if let Some(file) = &file {
            if let Some(object) = loose_object(file.as_slice()) {
                if names_commit(object.as_slice(), &self.sha) {
                    return TagStep::Found(self.annotated[k].name.clone());
                }
            }
        }
        self.next()
    }

    /// The names of the objects that are to be looked for in the packs.
    pub fn candidates(&self) -> (r: Vec<[u8; 20]>)
        requires
            self.wf(),
        ensures
            r@.len() == self@.annotated.len(),
            forall|i: int| 0 <= i < r@.len() ==> (#[trigger] r@[i])@ == candidate(self@, i),
    {
        let mut shas: Vec<[u8; 20]> = Vec::new();
        let mut i: usize = 0;
        while i < self.annotated.len()
            invariant
                self.wf(),
                i <= self.annotated.len(),
                shas@.len() == i,
                forall|j: int|
                    0 <= j < i ==> (#[trigger] shas@[j])@ == sha_bytes(self@.annotated[j].1),
            decreases self.annotated.len() - i,
        {
            assert(self@.annotated[i as int].1 == self.annotated@[i as int].sha@);
            assert(is_sha(self@.annotated[i as int].1));
            if let Some(sha) = hex_to_sha(self.annotated[i].sha.as_str()) {
                shas.push(sha);
            }
            i += 1;
        }
        shas
    }

    /// Goes on with the objects that the packs hold.
    pub fn on_packs(&self, hits: &Vec<(usize, Vec<u8>)>) -> (r: TagStep)
        requires
            self.wf(),
            forall|i: int|
                0 <= i < hits@.len() ==> (#[trigger] hits@[i]).0 < self@.annotated.len(),
        ensures
            r@ == after_packs(self@, hits@),
    {
        let mut i: usize = 0;
        assert(hits@.skip(0) == hits@);
        while i < hits.len()
            invariant
                i <= hits.len(),
                forall|j: int|
                    0 <= j < hits@.len() ==> (#[trigger] hits@[j]).0 < self@.annotated.len(),
                packed_object_tag(self@.annotated, hits@, self@.sha) == packed_object_tag(
                    self@.annotated,
                    hits@.skip(i as int),
                    self@.sha,
                ),
            decreases hits.len() - i,
        {
            let ghost left = hits@.skip(i as int);
            assert(left.drop_first() == hits@.skip(i + 1));
            assert(left[0] == hits@[i as int]);
            let k = hits[i].0;
            if names_commit(hits[i].1.as_slice(), &self.sha) {
                return TagStep::Found(self.annotated[k].name.clone());
            }
            i += 1;
        }
        TagStep::ReadPackedRefs
    }

    /// Ends the search with the content of `packed-refs`.
    pub fn on_packed_refs(&self, text: Option<String>) -> (r: TagStep)
        ensures
            r@ == after_packed_refs(self@, crate::refs::text_view(text)),
    {
        match text {
            Some(text) => match find_packed_tag(text.as_str(), self.sha.as_str()) {
                Some(name) => TagStep::Found(name),
                None => TagStep::NotFound,
            },
            None => TagStep::NotFound,
        }
    }
}

/// The file of the loose object `name` among the files of a repository.
pub open spec fn stored(store: Map<Seq<char>, Seq<u8>>, name: Seq<char>) -> Option<Seq<u8>> {
    if store.contains_key(name) {
        Some(store[name])
    } else {
        None
    }
}

/// The first tag whose loose object names the commit.
pub open spec fn loose_object_tag(
    annotated: Seq<(Seq<char>, Seq<char>)>,
    store: Map<Seq<char>, Seq<u8>>,
    sha: Seq<char>,
) -> Option<Seq<char>>
    decreases annotated.len(),
{
    if annotated.len() == 0 {
        None
    } else if file_names(stored(store, annotated[0].1), sha) {
        Some(annotated[0].0)
    } else {
        loose_object_tag(annotated.drop_first(), store, sha)
    }
}

/// What a repository holds that the search reads: the tags in files of their own, the files
/// of loose objects by object name, the objects that the packs hold for the tags that may be
/// annotated, and `packed-refs`.
pub struct Repository {
    pub files: Seq<(Seq<char>, Seq<char>)>,
    pub store: Map<Seq<char>, Seq<u8>>,
    pub hits: Seq<(usize, Vec<u8>)>,
    pub packed_refs: Option<Seq<char>>,
}

/// The tag that stands for a commit: one whose value is the commit, or else an annotated tag
/// whose loose object names it, or else one whose packed object does, or else one that
/// `packed-refs` gives.
pub open spec fn tag_of(sha: Seq<char>, repository: Repository) -> Option<Seq<char>> {
    let annotated = other_values(repository.files, sha);
    let by_value = find_value(repository.files, sha);
    let by_loose_object = loose_object_tag(annotated, repository.store, sha);
    let by_packed_object = packed_object_tag(annotated, repository.hits, sha);
    if by_value is Some {
        by_value
    } else if by_loose_object is Some {
        by_loose_object
    } else if by_packed_object is Some {
        by_packed_object
    } else {
        match repository.packed_refs {
            Some(text) => packed_tag(text, None, sha),
            None => None,
        }
    }
}

/// The search, driven on as long as it asks for loose objects.
pub open spec fn run_objects(
    state: SearchState,
    step: StepView,
    store: Map<Seq<char>, Seq<u8>>,
) -> (SearchState, StepView)
    decreases state.annotated.len() - state.looked,
{
    match step {
        StepView::ReadObject { dir, file } if state.looked < state.annotated.len() => {
            let (next, asked) = after_object(state, stored(store, dir + file));
            run_objects(next, asked, store)
        },
        _ => (state, step),
    }
}

/// The search, driven to its end: each answer is what the repository holds of what was
/// asked for.
pub open spec fn run(sha: Seq<char>, repository: Repository) -> StepView {
    let (first, asked) = begin(sha, repository.files);
    let (state, after_objects) = run_objects(first, asked, repository.store);
    let after_all_objects = match after_objects {
        StepView::ReadPacks => after_packs(state, repository.hits),
        other => other,
    };
    match after_all_objects {
        StepView::ReadPackedRefs => after_packed_refs(state, repository.packed_refs),
        other => other,
    }
}

proof fn lemma_run_objects(state: SearchState, store: Map<Seq<char>, Seq<u8>>)
    requires
        0 <= state.looked <= state.annotated.len(),
        forall|i: int| 0 <= i < state.annotated.len() ==> is_sha((#[trigger] state.annotated[i]).1),
    ensures
        ({
            let (last, step) = run_objects(state, next_step(state), store);
            let left = state.annotated.skip(state.looked);
            &&& last.annotated == state.annotated
            &&& last.sha == state.sha
            &&& step == match loose_object_tag(left, store, state.sha) {
                Some(name) => StepView::Found(name),
                None => StepView::ReadPacks,
            }
        }),
    decreases state.annotated.len() - state.looked,
{
    let left = state.annotated.skip(state.looked);
    if state.looked < state.annotated.len() {
        let object = state.annotated[state.looked].1;
        assert(is_sha(object));
        assert(object.take(2) + object.skip(2) == object);
        assert(left[0] == state.annotated[state.looked]);
        assert(left.drop_first() == state.annotated.skip(state.looked + 1));
        let (next, asked) = after_object(state, stored(store, object));
        if file_names(stored(store, object), state.sha) {
            assert(run_objects(next, asked, store) == (next, asked));
        } else {
            lemma_run_objects(next, store);
        }
    }
}

/// The search finds the tag that stands for the commit, and ends without one only where
/// there is none.
pub proof fn search_finds_the_tag(sha: Seq<char>, repository: Repository)
    ensures
        run(sha, repository) == match tag_of(sha, repository) {
            Some(name) => StepView::Found(name),
            None => StepView::NotFound,
        },
{
    let (first, asked) = begin(sha, repository.files);
    lemma_other_values(repository.files, sha);
    if find_value(repository.files, sha) is None {
        lemma_run_objects(first, repository.store);
        assert(first.annotated.skip(0) == first.annotated);
    }
}

/// The file of a loose tag object is recognised as naming the commit that the tag names: the
/// header of a loose object, then the tag, in full whatever its length.
pub proof fn loose_tag_is_recognised(
    file: Seq<u8>,
    header: Seq<u8>,
    sha: Seq<char>,
    rest: Seq<u8>,
    max_out: int,
)
    requires
        is_sha(sha),
        header.len() < 32,
        forall|i: int| 0 <= i < header.len() ==> header[i] != 0,
        LOOSE_LIMIT <= max_out,
        zlib(file, max_out) == Some(header.push(0) + (tag_start(sha) + rest)),
    ensures
        file_names(Some(file), sha),
{
    let content = tag_start(sha) + rest;
    let object = header.push(0) + content;
    target_reads_back(sha, rest);
    header_does_not_matter(header, content);
    lemma_index_is(object, 0u8, header.len() as int);
    assert(object_content(object) == content);
    lemma_first_line_ends(sha, rest);
    loose_limit_suffices(file, max_out);
}

/// The packs hold a tag object for tag number `i`, stored in full, and it names the commit.
pub open spec fn packs_name(
    packs: Seq<Pack>,
    annotated: Seq<(Seq<char>, Seq<char>)>,
    i: int,
    sha: Seq<char>,
) -> bool {
    &&& 0 <= i < annotated.len()
    &&& first_object(packs, sha_bytes(annotated[i].1)) matches Some(object) && target_of(object@)
        == Some(sha)
}

proof fn lemma_packed_object_tag(
    annotated: Seq<(Seq<char>, Seq<char>)>,
    hits: Seq<(usize, Vec<u8>)>,
    sha: Seq<char>,
)
    ensures
        match packed_object_tag(annotated, hits, sha) {
            Some(name) => exists|k: int|
                0 <= k < hits.len() && target_of((#[trigger] hits[k]).1@) == Some(sha) && name
                    == annotated[hits[k].0 as int].0,
            None => forall|k: int|
                0 <= k < hits.len() ==> target_of((#[trigger] hits[k]).1@) != Some(sha),
        },
    decreases hits.len(),
{
    if hits.len() > 0 {
        let rest = hits.drop_first();
        lemma_packed_object_tag(annotated, rest, sha);
        if target_of(hits[0].1@) == Some(sha) {
            assert(target_of(hits[0].1@) == Some(sha));
        } else {
            match packed_object_tag(annotated, rest, sha) {
                Some(name) => {
                    let k = choose|k: int|
                        0 <= k < rest.len() && target_of((#[trigger] rest[k]).1@) == Some(sha)
                            && name == annotated[rest[k].0 as int].0;
                    assert(hits[k + 1] == rest[k]);
                },
                None => {
                    assert forall|k: int| 0 <= k < hits.len() implies target_of(
                        (#[trigger] hits[k]).1@,
                    ) != Some(sha) by {
                        if k > 0 {
                            assert(rest[k - 1] == hits[k]);
                        }
                    }
                },
            }
        }
    }
}

/// The packs are searched for the objects of these tags, and give what the search finds.
pub open spec fn packs_searched(
    packs: Seq<Pack>,
    shas: Seq<[u8; 20]>,
    annotated: Seq<(Seq<char>, Seq<char>)>,
    hits: Seq<(usize, Vec<u8>)>,
) -> bool {
    &&& shas.len() == annotated.len() <= usize::MAX
    &&& forall|i: int| 0 <= i < shas.len() ==> (#[trigger] shas[i])@ == sha_bytes(annotated[i].1)
    &&& hits == scan(packs, shas)
}

/// The tag that is found by a packed object is one whose object in the packs names the
/// commit. None is found only where there is no such tag.
pub proof fn packed_object_is_found(
    packs: Seq<Pack>,
    shas: Seq<[u8; 20]>,
    annotated: Seq<(Seq<char>, Seq<char>)>,
    hits: Seq<(usize, Vec<u8>)>,
    sha: Seq<char>,
)
    requires
        packs_searched(packs, shas, annotated, hits),
    ensures
        match packed_object_tag(annotated, hits, sha) {
            Some(name) => exists|i: int| #[trigger]
                packs_name(packs, annotated, i, sha) && name == annotated[i].0,
            None => forall|i: int| !packs_name(packs, annotated, i, sha),
        },
{
    let n = shas.len() as int;
    no_name_is_hit_twice(packs, shas);
    lemma_hits_hold(hits, n);
    lemma_packed_object_tag(annotated, hits, sha);
    match packed_object_tag(annotated, hits, sha) {
        Some(name) => {
            let k = choose|k: int|
                0 <= k < hits.len() && target_of((#[trigger] hits[k]).1@) == Some(sha) && name
                    == annotated[hits[k].0 as int].0;
            let i = hits[k].0 as int;
            assert(i < n);
            scan_finds_what_the_packs_hold(packs, shas, i);
            assert(shas[i]@ == sha_bytes(annotated[i].1));
            assert(packs_name(packs, annotated, i, sha));
        },
        None => {
            assert forall|i: int| !packs_name(packs, annotated, i, sha) by {
                if packs_name(packs, annotated, i, sha) {
                    scan_finds_what_the_packs_hold(packs, shas, i);
                    assert(shas[i]@ == sha_bytes(annotated[i].1));
                    assert(hit_for(hits, i) is Some);
                    let k = choose|k: int|
                        0 <= k < hits.len() && (#[trigger] hits[k]).0 == i && Some(hits[k].1)
                            == hit_for(hits, i);
                    assert(target_of(hits[k].1@) == Some(sha));
                }
            }
        },
    }
}

/// A commit that the full object of a tag in the packs names has a tag.
pub proof fn packed_tag_object_suffices(
    sha: Seq<char>,
    repository: Repository,
    packs: Seq<Pack>,
    shas: Seq<[u8; 20]>,
    i: int,
)
    requires
        packs_searched(packs, shas, other_values(repository.files, sha), repository.hits),
        packs_name(packs, other_values(repository.files, sha), i, sha),
    ensures
        tag_of(sha, repository) is Some,
{
    let annotated = other_values(repository.files, sha);
    packed_object_is_found(packs, shas, annotated, repository.hits, sha);
}

} // verus!
