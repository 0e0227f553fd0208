//! The objects of a repository: tags, and where their bytes stand.
use vstd::prelude::*;
use vstd::utf8::{
    decode_utf8, encode_utf8, encode_utf8_decode_utf8, encode_utf8_valid_utf8, is_ascii_chars,
    is_ascii_chars_encode_utf8, is_char_boundary, is_char_boundary_iff_not_is_continuation_byte,
    valid_utf8,
};

use crate::hex::{hex_digit, is_hex, is_sha};
use crate::inflate::{zlib, zlib_decompress};
use crate::text::{
    after_prefix, chars_of, index_of, lemma_index_is, lemma_index_of, lemma_trimmed_is,
    strip_prefix, text_of, trim, trimmed,
};

verus! {

/// `std::str::from_utf8`: the text that bytes encode, where they are UTF-8.
#[verifier::external_body]
fn utf8_text(bytes: &[u8]) -> (r: Option<&str>)
    ensures
        match r {
            Some(text) => valid_utf8(bytes@) && text@ == decode_utf8(bytes@),
            None => !valid_utf8(bytes@),
        },
{
    std::str::from_utf8(bytes).ok()
}

/// The number of bytes before the first `x`.
fn byte_index(bytes: &[u8], x: u8) -> (r: usize)
    ensures
        r == index_of(bytes@, x),
        r <= bytes@.len(),
{
    let mut i: usize = 0;
    while i < bytes.len() && bytes[i] != x
        invariant
            i <= bytes.len(),
            forall|j: int| 0 <= j < i ==> bytes@[j] != x,
        decreases bytes.len() - i,
    {
        i += 1;
    }
    proof {
        lemma_index_is(bytes@, x, i as int);
    }
    i
}

/// An object without the header of a loose object: that header ends in a zero byte among
/// the first 32 bytes.
pub open spec fn object_content(object: Seq<u8>) -> Seq<u8> {
    let end = index_of(object, 0u8);
    if end < object.len() && end < 32 {
        object.skip(end as int + 1)
    } else {
        object
    }
}

/// The first line of the content.
pub open spec fn first_line(content: Seq<u8>) -> Seq<u8> {
    content.take(index_of(content, 10u8) as int)
}

/// The object name that the line `object <name>` gives.
pub open spec fn line_target(line: Seq<u8>) -> Option<Seq<char>> {
    if !valid_utf8(line) {
        None
    } else {
        match after_prefix(decode_utf8(line), "object "@) {
            Some(rest) if is_sha(trimmed(rest)) => Some(trimmed(rest)),
            _ => None,
        }
    }
}

/// The object that a tag object names; `None` for other objects.
pub open spec fn target_of(object: Seq<u8>) -> Option<Seq<char>> {
    line_target(first_line(object_content(object)))
}

/// The name of the object that a tag object names on its first line. `None` for objects
/// that do not start with the line `object <name>`, the name in full.
pub fn tag_target(object: &[u8]) -> (r: Option<String>)
    ensures
        match target_of(object@) {
            Some(target) => r matches Some(name) && name@ == target,
            None => r is None,
        },
{
    let end = byte_index(object, 0);
    let content = if end < object.len() && end < 32 {
        vstd::slice::slice_subrange(object, end + 1, object.len())
    } else {
        object
    };
    assert(content@ == object_content(object@));
    let line = vstd::slice::slice_subrange(content, 0, byte_index(content, 10));
    assert(line@ == first_line(content@));
    let text = match utf8_text(line) {
        Some(text) => text,
        None => {
            return None;
        },
    };
    let chars = chars_of(text);
    let rest = match strip_prefix(chars.as_slice(), "object ") {
        Some(rest) => rest,
        None => {
            return None;
        },
    };
    let target = trim(rest);
    if target.len() == 40 && is_hex(target) {
        Some(text_of(target))
    } else {
        None
    }
}

/// The header of a loose object does not change what a tag object names.
pub proof fn header_does_not_matter(header: Seq<u8>, content: Seq<u8>)
    requires
        header.len() < 32,
        forall|i: int| 0 <= i < header.len() ==> header[i] != 0,
        object_content(content) == content,
    ensures
        target_of(header.push(0) + content) == target_of(content),
{
    let object = header.push(0) + content;
    lemma_index_is(object, 0u8, header.len() as int);
    assert(object_content(object) == content);
}

/// The first bytes of an object suffice to see what it names: those up to the end of the
/// first line behind its header.
pub proof fn start_suffices(object: Seq<u8>, n: int)
    requires
        index_of(object, 0u8) < 32,
        index_of(object, 0u8) + 1 + index_of(object_content(object), 10u8) < n <= object.len(),
        index_of(object_content(object), 10u8) < object_content(object).len(),
    ensures
        target_of(object.take(n)) == target_of(object),
{
    let end = index_of(object, 0u8) as int;
    let content = object_content(object);
    let eol = index_of(content, 10u8) as int;
    lemma_index_of(object, 0u8);
    lemma_index_of(content, 10u8);
    let start = object.take(n);
    assert forall|j: int| 0 <= j < end implies start[j] != 0 by {
        assert(start[j] == object[j]);
    }
    lemma_index_is(start, 0u8, end);
    assert(object_content(start) == content.take(n - end - 1));
    let less = object_content(start);
    assert forall|j: int| 0 <= j < eol implies less[j] != 10 by {
        assert(less[j] == content[j]);
    }
    lemma_index_is(less, 10u8, eol);
    assert(first_line(less) == first_line(content));
}

/// The start of a tag object, as git writes it: the object that it names, on a line.
pub open spec fn tag_start(sha: Seq<char>) -> Seq<u8> {
    encode_utf8("object "@ + sha).push(10)
}

/// The first line of a tag object ends where the name of the object does, and there is no
/// zero byte before.
pub proof fn lemma_first_line_ends(sha: Seq<char>, rest: Seq<u8>)
    requires
        is_sha(sha),
    ensures
        tag_start(sha).len() == 48,
        index_of(tag_start(sha) + rest, 10u8) == 47,
        index_of(tag_start(sha) + rest, 0u8) > 47,
{
    reveal_strlit("object ");
    let line = "object "@ + sha;
    assert forall|i: int| 0 <= i < line.len() implies '\n' < #[trigger] line[i] <= '\u{7f}' by {
        if i >= 7 {
            assert(line[i] == sha[i - 7]);
            assert(hex_digit(sha[i - 7]));
        } else {
            assert(line[i] == "object "@[i]);
        }
    }
    assert(is_ascii_chars(line));
    is_ascii_chars_encode_utf8(line);
    let bytes = encode_utf8(line);
    let object = tag_start(sha) + rest;
    assert forall|i: int| 0 <= i < bytes.len() implies object[i] != 0 && object[i] != 10 by {
        assert(object[i] == bytes[i]);
        assert(line[i] as u8 == bytes[i]);
    }
    lemma_index_of(object, 0u8);
    lemma_index_is(object, 10u8, bytes.len() as int);
    assert(object[47] == 10);
}

/// A tag object is read as naming the object that it names.
pub proof fn target_reads_back(sha: Seq<char>, rest: Seq<u8>)
    requires
        is_sha(sha),
    ensures
        target_of(tag_start(sha) + rest) == Some(sha),
        object_content(tag_start(sha) + rest) == tag_start(sha) + rest,
{
    reveal_strlit("object ");
    let line = "object "@ + sha;
    let object = tag_start(sha) + rest;
    lemma_first_line_ends(sha, rest);
    assert(first_line(object) == encode_utf8(line));
    encode_utf8_valid_utf8(line);
    encode_utf8_decode_utf8(line);
    assert("object "@.is_prefix_of(line));
    assert(line.skip(7) == sha);
    assert(hex_digit(sha[0]) && hex_digit(sha.last()));
    lemma_trimmed_is(sha);
}

/// How many bytes of a loose object are decompressed.
pub const LOOSE_LIMIT: usize = 256;

/// The start of the object in the file of a loose object.
pub fn loose_object(file: &[u8]) -> (r: Option<Vec<u8>>)
    ensures
        match zlib(file@, LOOSE_LIMIT as int) {
            Some(object) => r matches Some(found) && found@ == object,
            None => r is None,
        },
{
    zlib_decompress(file, LOOSE_LIMIT)
}

/// The limit on loose objects does not change what a tag object names, where its first
/// line ends within the limit.
pub proof fn loose_limit_suffices(file: Seq<u8>, max_out: int)
    requires
        LOOSE_LIMIT <= max_out,
        zlib(file, max_out) is Some,
        ({
            let object = zlib(file, max_out)->0;
            let eol = index_of(object_content(object), 10u8);
            &&& index_of(object, 0u8) < 32
            &&& eol < object_content(object).len()
            &&& index_of(object, 0u8) + 1 + eol < LOOSE_LIMIT
        }),
    ensures
        zlib(file, LOOSE_LIMIT as int) matches Some(start) && target_of(start) == target_of(
            zlib(file, max_out)->0,
        ),
{
    crate::limits::limit_gives_prefix(file, LOOSE_LIMIT as int, max_out);
    let object = zlib(file, max_out)->0;
    let start = zlib(file, LOOSE_LIMIT as int)->0;
    assert(start == object.take(start.len() as int));
    if start.len() < LOOSE_LIMIT {
        assert(start == object);
    } else {
        start_suffices(object, start.len() as int);
    }
}

/// Where the file of a loose object stands: a directory named by the first two bytes of the
/// object's name, and a file in it named by the others.
pub fn object_path(sha: &str) -> (r: (String, String))
    requires
        is_char_boundary(encode_utf8(sha@), 2),
    ensures
        encode_utf8(r.0@) == encode_utf8(sha@).take(2),
        encode_utf8(r.1@) == encode_utf8(sha@).skip(2),
        is_sha(sha@) ==> r.0@ == sha@.take(2) && r.1@ == sha@.skip(2),
{
    let (start, rest) = sha.split_at(2);
    let r = (start.to_owned(), rest.to_owned());
    assert(encode_utf8(r.0@) == encode_utf8(sha@).take(2));
    assert(encode_utf8(r.1@) == encode_utf8(sha@).skip(2));
    proof {
        if is_sha(sha@) {
            lemma_sha_splits(sha@);
            encode_utf8_decode_utf8(r.0@);
            encode_utf8_decode_utf8(r.1@);
        }
    }
    r
}

/// An object name has two digits, of one byte each, before the others.
pub proof fn lemma_sha_splits(sha: Seq<char>)
    requires
        is_sha(sha),
    ensures
        is_char_boundary(encode_utf8(sha), 2),
        decode_utf8(encode_utf8(sha).take(2)) == sha.take(2),
        decode_utf8(encode_utf8(sha).skip(2)) == sha.skip(2),
{
    let (start, rest) = (sha.take(2), sha.skip(2));
    assert forall|i: int| 0 <= i < sha.len() implies '\0' <= #[trigger] sha[i] <= '\u{7f}' by {
        assert(hex_digit(sha[i]));
    }
    is_ascii_chars_encode_utf8(sha);
    is_ascii_chars_encode_utf8(start);
    is_ascii_chars_encode_utf8(rest);
    encode_utf8_valid_utf8(sha);
    encode_utf8_decode_utf8(start);
    encode_utf8_decode_utf8(rest);
    let bytes = encode_utf8(sha);
    assert(bytes.take(2) == encode_utf8(start));
    assert(bytes.skip(2) == encode_utf8(rest));
    assert(hex_digit(sha[2]) && bytes[2] == sha[2] as u8);
    is_char_boundary_iff_not_is_continuation_byte(bytes, 2);
}

} // verus!
