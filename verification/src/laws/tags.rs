//! Which tag stands for a commit.
use vstd::prelude::*;
use vstd::utf8::{
    decode_utf8, decode_utf8_encode_utf8, encode_utf8, encode_utf8_decode_utf8,
    encode_utf8_valid_utf8, is_ascii_chars, is_ascii_chars_encode_utf8,
};

use crate::hex::{hex_digit, is_sha};
use crate::inflate::zlib;
use crate::object::{first_line, object_content, target_of};
use crate::packed_refs::packed_tag;
use crate::search::{
    candidate, loose_object_tag, next_step, packed_object_tag, run, search_finds_the_tag,
    Repository, SearchState, StepView,
};
use crate::tags::{entry_files, loose_files, other_values, RefEntry};
use crate::text::{after_prefix, lemma_index_is, lemma_index_of, trimmed, white_space};

verus! {

/// A file below the references gives its own name, behind the names of the directories above
/// it and with a slash between, and its text without the white space around it. Names that
/// end in `.lock`, and files that cannot be read, give nothing.
pub proof fn file_gives_its_reference(
    entry: RefEntry,
    name: String,
    content: Option<String>,
    prefix: Seq<char>,
    before: Seq<char>,
    value: Seq<char>,
    after: Seq<char>,
)
    requires
        entry == (RefEntry::File { name, content }),
        content matches Some(text) ==> text@ == before + value + after,
        forall|i: int| 0 <= i < before.len() ==> white_space(#[trigger] before[i]),
        forall|i: int| 0 <= i < after.len() ==> white_space(#[trigger] after[i]),
        value.len() > 0 ==> !white_space(value[0]) && !white_space(value.last()),
    ensures
        content is None ==> entry_files(entry, prefix).len() == 0,
        (exists|start: Seq<char>| name@ == #[trigger] (start + ".lock"@)) ==> entry_files(
            entry,
            prefix,
        ).len() == 0,
        content is Some && (forall|start: Seq<char>| name@ != #[trigger] (start + ".lock"@))
            ==> entry_files(entry, prefix) == seq![
            (
                if prefix.len() == 0 {
                    name@
                } else {
                    prefix + "/"@ + name@
                },
                value,
            ),
        ],
{
    crate::laws::text::trimming_leaves_the_text(before, value, after);
    reveal_strlit("/");
    assert("/"@ == seq!['/']);
    let lock = ".lock"@;
    if lock.is_suffix_of(name@) {
        let start = name@.take(name@.len() - lock.len());
        assert(name@ == start + lock);
    }
    if exists|start: Seq<char>| name@ == #[trigger] (start + lock) {
        let start = choose|start: Seq<char>| name@ == #[trigger] (start + lock);
        assert(name@.subrange(name@.len() - lock.len(), name@.len() as int) == lock);
        assert(lock.is_suffix_of(name@));
    }
}

/// A directory gives the references below it, with its name in front of theirs.
pub proof fn directory_gives_what_is_below(
    entry: RefEntry,
    name: String,
    entries: Vec<RefEntry>,
    prefix: Seq<char>,
)
    requires
        entry == (RefEntry::Dir { name, entries }),
    ensures
        entry_files(entry, prefix) == loose_files(
            entries@,
            if prefix.len() == 0 {
                name@
            } else {
                prefix + "/"@ + name@
            },
        ),
{
    reveal_strlit("/");
    assert("/"@ == seq!['/']);
}

/// Entries give their references one after the other.
pub proof fn entries_give_theirs_in_order(
    a: Seq<RefEntry>,
    entry: RefEntry,
    b: Seq<RefEntry>,
    prefix: Seq<char>,
)
    ensures
        loose_files(Seq::empty(), prefix).len() == 0,
        loose_files(seq![entry], prefix) == entry_files(entry, prefix),
        loose_files(a + b, prefix) == loose_files(a, prefix) + loose_files(b, prefix),
    decreases a.len(),
{
    assert(seq![entry].drop_first() == Seq::<RefEntry>::empty());
    assert(loose_files(seq![entry].drop_first(), prefix) == Seq::<(Seq<char>, Seq<char>)>::empty());
    assert(entry_files(entry, prefix) + Seq::<(Seq<char>, Seq<char>)>::empty() == entry_files(
        entry,
        prefix,
    ));
    if a.len() == 0 {
        assert(a + b == b);
        assert(Seq::<(Seq<char>, Seq<char>)>::empty() + loose_files(b, prefix) == loose_files(
            b,
            prefix,
        ));
    } else {
        entries_give_theirs_in_order(a.drop_first(), entry, b, prefix);
        assert((a + b).drop_first() == a.drop_first() + b);
        assert((a + b)[0] == a[0]);
        let (x, y, z) = (
            entry_files(a[0], prefix),
            loose_files(a.drop_first(), prefix),
            loose_files(b, prefix),
        );
        assert(x + (y + z) == x + y + z);
    }
}

/// Where no reference has the commit as its value, those that may be annotated tags are the
/// ones whose values are forty hexadecimal digits, in their order.
pub proof fn other_names_may_be_annotated(files: Seq<(Seq<char>, Seq<char>)>, sha: Seq<char>)
    requires
        forall|i: int| 0 <= i < files.len() ==> (#[trigger] files[i]).1 != sha,
    ensures
        other_values(files, sha) == files.filter(
            |file: (Seq<char>, Seq<char>)|
                file.1.len() == 40 && forall|i: int|
                    0 <= i < 40 ==> '0' <= #[trigger] file.1[i] <= '9' || 'a' <= file.1[i] <= 'f'
                        || 'A' <= file.1[i] <= 'F',
        ),
    decreases files.len(),
{
    reveal_with_fuel(Seq::filter, 2);
    let wanted = |file: (Seq<char>, Seq<char>)|
        file.1.len() == 40 && forall|i: int|
            0 <= i < 40 ==> '0' <= #[trigger] file.1[i] <= '9' || 'a' <= file.1[i] <= 'f' || 'A'
                <= file.1[i] <= 'F';
    if files.len() > 0 {
        let start = files.drop_last();
        let last = files.last();
        assert forall|i: int| 0 <= i < start.len() implies (#[trigger] start[i]).1 != sha by {
            assert(files[i].1 != sha);
        }
        other_names_may_be_annotated(start, sha);
        crate::laws::text::object_names_are_forty_digits(last.1);
        assert(files == start + seq![last]);
        lemma_values_end(start, last, sha);
        assert(files.filter(wanted) == if wanted(last) {
            start.filter(wanted).push(last)
        } else {
            start.filter(wanted)
        });
    }
}

proof fn lemma_values_end(
    files: Seq<(Seq<char>, Seq<char>)>,
    last: (Seq<char>, Seq<char>),
    sha: Seq<char>,
)
    requires
        forall|i: int| 0 <= i < files.len() ==> (#[trigger] files[i]).1 != sha,
        last.1 != sha,
    ensures
        other_values(files + seq![last], sha) == if is_sha(last.1) {
            other_values(files, sha).push(last)
        } else {
            other_values(files, sha)
        },
    decreases files.len(),
{
    let all = files + seq![last];
    if files.len() == 0 {
        assert(all == seq![last]);
        assert(all.drop_first() == Seq::<(Seq<char>, Seq<char>)>::empty());
        assert(other_values(all.drop_first(), sha) == Seq::<(Seq<char>, Seq<char>)>::empty());
        assert(seq![last] + Seq::<(Seq<char>, Seq<char>)>::empty()
            == Seq::<(Seq<char>, Seq<char>)>::empty().push(last));
    } else {
        let rest = files.drop_first();
        assert(all[0] == files[0]);
        assert(files[0].1 != sha);
        assert(all.drop_first() == rest + seq![last]);
        assert forall|i: int| 0 <= i < rest.len() implies (#[trigger] rest[i]).1 != sha by {
            assert(files[i + 1].1 != sha);
        }
        lemma_values_end(rest, last, sha);
        let first = seq![files[0]];
        assert(first + other_values(rest, sha).push(last) == (first + other_values(
            rest,
            sha,
        )).push(last));
    }
}

/// The target of a tag object is the name behind `object ` on its first line, with or without
/// white space around it, and whatever follows that line.
pub proof fn first_line_names_the_target(
    space: Seq<char>,
    sha: Seq<char>,
    after: Seq<char>,
    rest: Seq<u8>,
)
    requires
        is_sha(sha),
        forall|i: int| 0 <= i < space.len() ==> (#[trigger] space[i] == ' ' || space[i] == '\t'),
        forall|i: int| 0 <= i < after.len() ==> (#[trigger] after[i] == ' ' || after[i] == '\r'),
    ensures
        target_of(encode_utf8("object "@ + space + sha + after) + seq![10u8] + rest) == Some(sha),
        target_of(encode_utf8("object "@ + space + sha + after)) == Some(sha),
{
    reveal_strlit("object ");
    let line = "object "@ + space + sha + after;
    let (a, b) = (space.len() as int, after.len() as int);
    assert forall|i: int| 0 <= i < line.len() implies '\0' < #[trigger] line[i] <= '\u{7f}'
        && line[i] != '\n' by {
        if i < 7 {
            assert(line[i] == "object "@[i]);
        } else if i < 7 + a {
            assert(line[i] == space[i - 7]);
        } else if i < 47 + a {
            assert(line[i] == sha[i - 7 - a]);
            assert(hex_digit(sha[i - 7 - a]));
        } else {
            assert(line[i] == after[i - 47 - a]);
        }
    }
    assert(is_ascii_chars(line));
    is_ascii_chars_encode_utf8(line);
    let bytes = encode_utf8(line);
    encode_utf8_valid_utf8(line);
    encode_utf8_decode_utf8(line);
    assert forall|i: int| 0 <= i < bytes.len() implies bytes[i] != 0 && bytes[i] != 10 by {
        assert(line[i] as u8 == bytes[i]);
    }
    let object = bytes + seq![10u8] + rest;
    assert forall|i: int| 0 <= i < bytes.len() implies object[i] != 0 && object[i] != 10 by {
        assert(object[i] == bytes[i]);
    }
    lemma_index_of(object, 0u8);
    lemma_index_of(bytes, 0u8);
    assert(bytes.len() >= 47);
    assert(object_content(object) == object);
    assert(object_content(bytes) == bytes) by {
        lemma_index_is(bytes, 0u8, bytes.len() as int);
    }
    lemma_index_is(object, 10u8, bytes.len() as int);
    lemma_index_is(bytes, 10u8, bytes.len() as int);
    assert(first_line(object) == bytes);
    assert(first_line(bytes) == bytes);
    let prefix = "object "@;
    assert(line == prefix + (space + sha + after));
    crate::laws::text::prefix_and_rest_are_the_text(line, prefix, space + sha + after);
    assert(hex_digit(sha[0]) && hex_digit(sha.last()));
    crate::laws::text::trimming_leaves_the_text(space, sha, after);
}

/// A target that is found is forty hexadecimal digits that stand behind `object ` in the
/// bytes of the object, with nothing but white space around them on the line.
pub proof fn target_stands_in_the_object(object: Seq<u8>, target: Seq<char>)
    requires
        target_of(object) == Some(target),
    ensures
        target.len() == 40,
        exists|header: Seq<u8>, line: Seq<char>, rest: Seq<u8>|
            {
                &&& object == #[trigger] (header + encode_utf8("object "@ + line) + rest)
                &&& header.len() == 0 || (header.len() <= 32 && header.last() == 0)
                &&& rest.len() == 0 || rest[0] == 10
                &&& trimmed(line) == target
            },
{
    let content = object_content(object);
    let header = object.take(object.len() - content.len());
    lemma_index_of(object, 0u8);
    assert(object == header + content);
    let line = first_line(content);
    lemma_index_of(content, 10u8);
    let rest = content.skip(line.len() as int);
    assert(content == line + rest);
    decode_utf8_encode_utf8(line);
    let chars = decode_utf8(line);
    let prefix = "object "@;
    let behind = after_prefix(chars, prefix)->0;
    crate::laws::text::prefix_and_rest_are_the_text(chars, prefix, behind);
    assert(object == header + encode_utf8(prefix + behind) + rest);
}

/// The header of a loose object ends in a zero byte among the first 32 bytes, and an object
/// without one there has no header: what follows it is read either way.
pub proof fn header_is_left_out(header: Seq<u8>, content: Seq<u8>)
    requires
        header.len() < 32,
        forall|i: int| 0 <= i < header.len() ==> #[trigger] header[i] != 0,
        forall|i: int| 0 <= i < content.len() && i < 32 ==> #[trigger] content[i] != 0,
    ensures
        target_of(header + seq![0u8] + content) == target_of(content),
{
    let object = header + seq![0u8] + content;
    let n = header.len() as int;
    assert(object[n] == 0);
    assert forall|j: int| 0 <= j < n implies object[j] != 0 by {
        assert(object[j] == header[j]);
    }
    lemma_index_is(object, 0u8, n);
    assert(object.skip(n + 1) == content);
    lemma_index_of(content, 0u8);
}

/// The packs are searched for each of the tags that may be annotated, by the bytes that the
/// digits of its object's name spell.
pub proof fn packs_are_searched_by_name(state: SearchState, i: int, j: int, high: int, low: int)
    requires
        0 <= i < state.annotated.len(),
        is_sha(state.annotated[i].1),
        0 <= j < 20,
        0 <= high < 16,
        0 <= low < 16,
        ({
            let name = state.annotated[i].1;
            &&& name[2 * j] as int == if high < 10 {
                '0' as int + high
            } else {
                'a' as int + high - 10
            }
            &&& name[2 * j + 1] as int == if low < 10 {
                '0' as int + low
            } else {
                'a' as int + low - 10
            }
        }),
    ensures
        candidate(state, i).len() == 20,
        candidate(state, i)[j] == 16 * high + low,
{
    crate::laws::text::two_digits_spell_a_byte(state.annotated[i].1, j, high, low);
}

/// The file of a loose object is looked for below two digits of its name, by the others.
pub proof fn loose_objects_are_asked_for(state: SearchState)
    requires
        0 <= state.looked < state.annotated.len(),
        is_sha(state.annotated[state.looked].1),
    ensures
        next_step(state) matches StepView::ReadObject { dir, file } && dir.len() == 2 && dir + file
            == state.annotated[state.looked].1,
{
    let sha = state.annotated[state.looked].1;
    assert(sha.take(2) + sha.skip(2) == sha);
}

/// A tag whose value is the commit ends the search: the first of them is found.
pub proof fn search_finds_a_value(sha: Seq<char>, repository: Repository, i: int)
    requires
        0 <= i < repository.files.len(),
        repository.files[i].1 == sha,
        forall|j: int| 0 <= j < i ==> (#[trigger] repository.files[j]).1 != sha,
    ensures
        run(sha, repository) == StepView::Found(repository.files[i].0),
{
    search_finds_the_tag(sha, repository);
    crate::tags::first_value_is_found(repository.files, sha, i);
}

proof fn lemma_loose_first(
    annotated: Seq<(Seq<char>, Seq<char>)>,
    store: Map<Seq<char>, Seq<u8>>,
    sha: Seq<char>,
    n: int,
)
    requires
        0 <= n <= annotated.len(),
        forall|j: int|
            #![trigger annotated[j]]
            0 <= j < n ==> !(store.contains_key(annotated[j].1) && (zlib(
                store[annotated[j].1],
                256,
            ) matches Some(object) && target_of(object) == Some(sha))),
    ensures
        n == annotated.len() ==> loose_object_tag(annotated, store, sha) is None,
        n < annotated.len() && store.contains_key(annotated[n].1) && (zlib(
            store[annotated[n].1],
            256,
        ) matches Some(object) && target_of(object) == Some(sha)) ==> loose_object_tag(
            annotated,
            store,
            sha,
        ) == Some(annotated[n].0),
    decreases n,
{
    if n > 0 {
        let rest = annotated.drop_first();
        assert(!(store.contains_key(annotated[0].1) && (zlib(store[annotated[0].1], 256) matches Some(
            object,
        ) && target_of(object) == Some(sha))));
        assert forall|j: int|
            #![trigger rest[j]]
            0 <= j < n - 1 implies !(store.contains_key(rest[j].1) && (zlib(
            store[rest[j].1],
            256,
        ) matches Some(object) && target_of(object) == Some(sha))) by {
            assert(rest[j] == annotated[j + 1]);
        }
        lemma_loose_first(rest, store, sha, n - 1);
        if n < annotated.len() {
            assert(rest[n - 1] == annotated[n]);
        }
    }
}

/// Where no value is the commit, the first tag is found whose loose object names it: the
/// start of what its file decompresses to, 256 bytes of it at most.
pub proof fn search_finds_a_loose_object(sha: Seq<char>, repository: Repository, n: int)
    requires
        forall|i: int| 0 <= i < repository.files.len() ==> (#[trigger] repository.files[i]).1 != sha,
        ({
            let tags = other_values(repository.files, sha);
            let store = repository.store;
            &&& 0 <= n < tags.len()
            &&& store.contains_key(tags[n].1)
            &&& zlib(store[tags[n].1], 256) matches Some(object) && target_of(object) == Some(sha)
            &&& forall|j: int|
                #![trigger tags[j]]
                0 <= j < n ==> !(store.contains_key(tags[j].1) && (zlib(
                    store[tags[j].1],
                    256,
                ) matches Some(object) && target_of(object) == Some(sha)))
        }),
    ensures
        run(sha, repository) == StepView::Found(other_values(repository.files, sha)[n].0),
{
    search_finds_the_tag(sha, repository);
    crate::tags::no_other_value_is_found(repository.files, sha);
    lemma_loose_first(other_values(repository.files, sha), repository.store, sha, n);
}

proof fn lemma_packed_first(
    annotated: Seq<(Seq<char>, Seq<char>)>,
    hits: Seq<(usize, Vec<u8>)>,
    sha: Seq<char>,
    n: int,
)
    requires
        0 <= n <= hits.len(),
        forall|j: int| 0 <= j < n ==> target_of((#[trigger] hits[j]).1@) != Some(sha),
    ensures
        n == hits.len() ==> packed_object_tag(annotated, hits, sha) is None,
        n < hits.len() && target_of(hits[n].1@) == Some(sha) ==> packed_object_tag(
            annotated,
            hits,
            sha,
        ) == Some(annotated[hits[n].0 as int].0),
    decreases n,
{
    if n > 0 {
        let rest = hits.drop_first();
        assert(target_of(hits[0].1@) != Some(sha));
        assert forall|j: int| 0 <= j < n - 1 implies target_of((#[trigger] rest[j]).1@) != Some(
            sha,
        ) by {
            assert(rest[j] == hits[j + 1]);
        }
        lemma_packed_first(annotated, rest, sha, n - 1);
        if n < hits.len() {
            assert(rest[n - 1] == hits[n]);
        }
    }
}

/// Where neither a value nor a loose object gives the commit, the first object from the packs
/// that names it gives the tag whose number it has; where none does, `packed-refs` gives what
/// it gives; and where it gives nothing or cannot be read, there is no tag.
pub proof fn search_goes_on_to_packs(sha: Seq<char>, repository: Repository, n: int)
    requires
        forall|i: int| 0 <= i < repository.files.len() ==> (#[trigger] repository.files[i]).1 != sha,
        ({
            let tags = other_values(repository.files, sha);
            let store = repository.store;
            forall|j: int|
                #![trigger tags[j]]
                0 <= j < tags.len() ==> !(store.contains_key(tags[j].1) && (zlib(
                    store[tags[j].1],
                    256,
                ) matches Some(object) && target_of(object) == Some(sha)))
        }),
        0 <= n <= repository.hits.len(),
        forall|j: int| 0 <= j < n ==> target_of((#[trigger] repository.hits[j]).1@) != Some(sha),
    ensures
        n < repository.hits.len() && target_of(repository.hits[n].1@) == Some(sha) ==> run(
            sha,
            repository,
        ) == StepView::Found(
            other_values(repository.files, sha)[repository.hits[n].0 as int].0,
        ),
        n == repository.hits.len() ==> run(sha, repository) == match repository.packed_refs {
            Some(text) => match packed_tag(text, None, sha) {
                Some(name) => StepView::Found(name),
                None => StepView::NotFound,
            },
            None => StepView::NotFound,
        },
{
    let tags = other_values(repository.files, sha);
    search_finds_the_tag(sha, repository);
    crate::tags::no_other_value_is_found(repository.files, sha);
    lemma_loose_first(tags, repository.store, sha, tags.len() as int);
    lemma_packed_first(tags, repository.hits, sha, n);
}

} // verus!
