//! Where objects stand in packs, and what is read of them.
use vstd::arithmetic::power2::pow2;
use vstd::prelude::*;

use crate::bytes::comes_before;
use crate::index::{
    any_may_hold, bisect, bisection_finds, bisection_finds_nothing_else, fanout, first_row, has_row,
    is_hit, is_index, may_hold, pack_offset, rising, row, wanted,
};
use crate::inflate::zlib;
use crate::laws::stream::highest_byte_is_first;
use crate::pack::{
    data_limit, entry_kind, entry_object, entry_size, header_goes_on, is_small_tag, size_sum,
};
use crate::scan::{after_reads, reads_of, scan, Pack};

verus! {

/// Of two byte strings the one comes first that is lower at the first place where they
/// differ.
pub proof fn first_difference_decides(a: Seq<u8>, b: Seq<u8>, j: int)
    requires
        0 <= j < a.len(),
        j < b.len(),
        a[j] < b[j],
        forall|k: int| 0 <= k < j ==> a[k] == b[k],
    ensures
        comes_before(a, b),
        !comes_before(b, a),
    decreases j,
{
    if j > 0 {
        assert(a[0] == b[0]);
        let (x, y) = (a.drop_first(), b.drop_first());
        assert(x[j - 1] == a[j] && y[j - 1] == b[j]);
        assert forall|k: int| 0 <= k < j - 1 implies x[k] == y[k] by {
            assert(a[k + 1] == b[k + 1]);
        }
        first_difference_decides(x, y, j - 1);
    }
}

/// Each object of an index is found by its name, at its place in the pack. The index is a
/// magic number and the version, 256 counts of names by their first byte, the names in
/// rising order, as many checksums, and the places: four bytes each, the highest first, or,
/// where that number is 2^31 and more, the number of a place of eight bytes behind them.
pub proof fn object_of_an_index_is_found(
    idx: Seq<u8>,
    names: Seq<Seq<u8>>,
    places: Seq<int>,
    counts: Seq<int>,
    r: int,
    shas: Seq<[u8; 20]>,
    hits: Seq<(usize, Vec<u8>)>,
    i: int,
)
    requires
        names.len() <= 0xffff_ffff,
        places.len() == names.len(),
        counts.len() == 256,
        idx.len() >= 1032 + 28 * names.len(),
        idx.take(8) == seq![0xffu8, 0x74, 0x4f, 0x63, 0, 0, 0, 2],
        forall|b: int|
            #![trigger counts[b]]
            0 <= b < 256 ==> {
                let at = 8 + 4 * b;
                &&& counts[b] == 0x100_0000 * idx[at] + 0x1_0000 * idx[at + 1] + 0x100 * idx[at + 2]
                    + idx[at + 3]
                &&& counts[b] <= names.len()
                &&& forall|t: int|
                    0 <= t < names.len() ==> (t < counts[b]) == ((#[trigger] names[t])[0] <= b)
            },
        counts[255] == names.len(),
        forall|t: int|
            #![trigger names[t]]
            0 <= t < names.len() ==> names[t].len() == 20 && idx.subrange(
                1032 + 20 * t,
                1052 + 20 * t,
            ) == names[t],
        forall|t: int, u: int|
            #![trigger names[t], names[u]]
            0 <= t < u < names.len() ==> exists|j: int|
                0 <= j < 20 && #[trigger] names[t][j] < names[u][j] && forall|k: int|
                    0 <= k < j ==> names[t][k] == names[u][k],
        0 <= r < names.len(),
        ({
            let at = 1032 + 24 * names.len() + 4 * r;
            let v = 0x100_0000 * idx[at] + 0x1_0000 * idx[at + 1] + 0x100 * idx[at + 2] + idx[at
                + 3];
            let far = 1032 + 28 * names.len() + 8 * (v - 0x8000_0000);
            if v < 0x8000_0000 {
                places[r] == v
            } else {
                &&& far + 8 <= idx.len()
                &&& places[r] == 0x1_0000_0000 * (0x100_0000 * idx[far] + 0x1_0000 * idx[far + 1]
                    + 0x100 * idx[far + 2] + idx[far + 3]) + (0x100_0000 * idx[far + 4] + 0x1_0000
                    * idx[far + 5] + 0x100 * idx[far + 6] + idx[far + 7])
            }
        }),
        0 <= i < shas.len() <= usize::MAX,
        shas[i]@ == names[r],
        !is_hit(hits, i),
    ensures
        is_index(idx.take(1032)),
        bisect(idx, names.len() as int, 0, names.len() as int, names[r]) == Some(places[r]),
        any_may_hold(idx.take(1032), shas),
        wanted(idx.take(1032), idx, shas, hits, shas.len() as int).contains(
            (i as usize, places[r] as u64),
        ),
{
    let head = idx.take(1032);
    let n = names.len() as int;
    assert forall|k: int| 0 <= k < 8 implies head[k] == idx.take(8)[k] by {}
    highest_byte_is_first(head, 4);
    assert(is_index(head));
    assert forall|b: int| 0 <= b < 256 implies #[trigger] counts[b] == fanout(head, b) by {
        highest_byte_is_first(head, 8 + 4 * b);
    }
    assert forall|t: int| 0 <= t < n implies #[trigger] row(idx, t) == names[t] && has_row(
        idx,
        t,
    ) by {
        assert(names[t].len() == 20);
    }
    assert(rising(idx, 0, n)) by {
        assert forall|t: int, u: int| 0 <= t < u < n implies comes_before(
            #[trigger] row(idx, t),
            #[trigger] row(idx, u),
        ) by {
            let (x, y) = (names[t], names[u]);
            let j = choose|j: int|
                0 <= j < 20 && #[trigger] names[t][j] < names[u][j] && forall|k: int|
                    0 <= k < j ==> names[t][k] == names[u][k];
            assert(x.len() == 20 && y.len() == 20);
            first_difference_decides(x, y, j);
        }
    }
    let at = 1032 + 24 * n + 4 * r;
    highest_byte_is_first(idx, at);
    let v = 0x100_0000 * idx[at] + 0x1_0000 * idx[at + 1] + 0x100 * idx[at + 2] + idx[at + 3];
    let far = 1032 + 28 * n + 8 * (v - 0x8000_0000);
    if v >= 0x8000_0000 {
        highest_byte_is_first(idx, far);
        highest_byte_is_first(idx, far + 4);
    }
    assert(pack_offset(idx, n, r) == Some(places[r]));
    assert(row(idx, r) == names[r]);
    bisection_finds(idx, n, 0, n, r);
    let first = names[r][0] as int;
    let (lo, hi) = (first_row(head, first), fanout(head, first));
    assert(counts[first] == hi);
    if first > 0 {
        assert(counts[first - 1] == lo);
    }
    assert(0 <= lo <= r < hi <= n);
    assert(rising(idx, lo, hi));
    bisection_finds(idx, n, lo, hi, r);
    assert(may_hold(head, shas[i]@));
    assert(counts[255] == fanout(head, 255));
    lemma_wanted_holds(head, idx, shas, hits, shas.len() as int, i, places[r]);
}

proof fn lemma_wanted_holds(
    head: Seq<u8>,
    idx: Seq<u8>,
    shas: Seq<[u8; 20]>,
    hits: Seq<(usize, Vec<u8>)>,
    n: int,
    i: int,
    place: int,
)
    requires
        0 <= i < n <= shas.len(),
        !is_hit(hits, i),
        ({
            let first = shas[i]@[0] as int;
            bisect(idx, fanout(head, 255), first_row(head, first), fanout(head, first), shas[i]@)
                == Some(place)
        }),
    ensures
        wanted(head, idx, shas, hits, n).contains((i as usize, place as u64)),
    decreases n,
{
    let all = wanted(head, idx, shas, hits, n);
    if i == n - 1 {
        assert(all.last() == (i as usize, place as u64));
    } else {
        lemma_wanted_holds(head, idx, shas, hits, n - 1, i, place);
        let before = wanted(head, idx, shas, hits, n - 1);
        let k = choose|k: int| 0 <= k < before.len() && before[k] == (i as usize, place as u64);
        assert(all[k] == before[k]);
    }
}

/// What is wanted of a pack are names that have not been hit, each at the place that the index
/// gives for it, in the order of the names.
pub proof fn only_missing_names_are_wanted(
    head: Seq<u8>,
    idx: Seq<u8>,
    shas: Seq<[u8; 20]>,
    hits: Seq<(usize, Vec<u8>)>,
    n: int,
    k: int,
)
    requires
        0 <= n <= shas.len() <= usize::MAX,
        0 <= k < wanted(head, idx, shas, hits, n).len(),
    ensures
        ({
            let (i, place) = wanted(head, idx, shas, hits, n)[k];
            let first = shas[i as int]@[0] as int;
            let lo = if first == 0 {
                0
            } else {
                fanout(head, first - 1)
            };
            &&& i < n
            &&& forall|j: int| 0 <= j < hits.len() ==> (#[trigger] hits[j]).0 != i
            &&& bisect(idx, fanout(head, 255), lo, fanout(head, first), shas[i as int]@) matches Some(
                offset,
            ) && place == offset as u64
            &&& forall|j: int|
                0 <= j < k ==> (#[trigger] wanted(head, idx, shas, hits, n)[j]).0 < i
        }),
    decreases n,
{
    let all = wanted(head, idx, shas, hits, n);
    let before = wanted(head, idx, shas, hits, n - 1);
    if n > 0 {
        if k < before.len() {
            only_missing_names_are_wanted(head, idx, shas, hits, n - 1, k);
            assert forall|j: int| 0 <= j < k implies (#[trigger] all[j]).0 < all[k].0 by {
                assert(all[j] == before[j]);
            }
        } else {
            assert(all[k].0 == n - 1);
            assert forall|j: int| 0 <= j < k implies (#[trigger] all[j]).0 < all[k].0 by {
                assert(all[j] == before[j]);
                only_missing_names_are_wanted(head, idx, shas, hits, n - 1, j);
            }
            assert forall|j: int| 0 <= j < hits.len() implies (#[trigger] hits[j]).0 != n - 1 by {
                if hits[j].0 == n - 1 {
                    assert(is_hit(hits, n - 1));
                }
            }
        }
    }
}

/// A name that stands in no row of an index is not found in it.
pub proof fn no_other_object_is_found(idx: Seq<u8>, n: int, lo: int, hi: int, sha: Seq<u8>)
    requires
        forall|t: int|
            #![trigger idx.subrange(1032 + 20 * t, 1052 + 20 * t)]
            lo <= t < hi && 1052 + 20 * t <= idx.len() ==> idx.subrange(
                1032 + 20 * t,
                1052 + 20 * t,
            ) != sha,
    ensures
        bisect(idx, n, lo, hi, sha) is None,
{
    assert forall|t: int| lo <= t < hi && has_row(idx, t) implies #[trigger] row(idx, t) != sha by {
        assert(idx.subrange(1032 + 20 * t, 1052 + 20 * t) != sha);
    }
    bisection_finds_nothing_else(idx, n, lo, hi, sha);
}

/// An object whose place lies behind the end of the index has none.
pub proof fn place_behind_the_index_is_none(idx: Seq<u8>, n: int, i: int)
    requires
        0 <= i < n,
        ({
            let at = 1032 + 24 * n + 4 * i;
            let v = 0x100_0000 * idx[at] + 0x1_0000 * idx[at + 1] + 0x100 * idx[at + 2] + idx[at
                + 3];
            at + 4 > idx.len() || (v >= 0x8000_0000 && 1032 + 28 * n + 8 * (v - 0x8000_0000) + 8
                > idx.len())
        }),
    ensures
        pack_offset(idx, n, i) is None,
{
    let at = 1032 + 24 * n + 4 * i;
    highest_byte_is_first(idx, at);
}

/// An index is one of version 2 where it starts with the magic number and that version, and
/// has all of its counts.
pub proof fn index_starts_with_its_version(head: Seq<u8>)
    ensures
        is_index(head) == (head.len() == 1032 && head.take(8) == seq![
            0xffu8,
            0x74,
            0x4f,
            0x63,
            0,
            0,
            0,
            2,
        ]),
{
    let start = seq![0xffu8, 0x74, 0x4f, 0x63, 0, 0, 0, 2];
    if head.len() == 1032 {
        highest_byte_is_first(head, 4);
        if is_index(head) {
            assert(head.take(8) == start);
        } else if head.take(8) == start {
            assert forall|k: int| 0 <= k < 8 implies head[k] == start[k] by {
                assert(head[k] == head.take(8)[k]);
            }
        }
    }
}

/// An index has to be read in full exactly where the count for the first byte of some name is
/// not the count before it; before the byte 0 that is none.
pub proof fn counts_tell_what_an_index_may_hold(head: Seq<u8>, shas: Seq<[u8; 20]>)
    requires
        head.len() == 1032,
    ensures
        any_may_hold(head, shas) == exists|i: int|
            0 <= i < shas.len() && {
                let at = 8 + 4 * (#[trigger] shas[i])@[0];
                let count = 0x100_0000 * head[at] + 0x1_0000 * head[at + 1] + 0x100 * head[at + 2]
                    + head[at + 3];
                let before = 0x100_0000 * head[at - 4] + 0x1_0000 * head[at - 3] + 0x100 * head[at
                    - 2] + head[at - 1];
                count != if shas[i]@[0] == 0 {
                    0
                } else {
                    before
                }
            },
{
    assert forall|i: int| 0 <= i < shas.len() implies may_hold(head, #[trigger] shas[i]@) == ({
        let at = 8 + 4 * shas[i]@[0];
        let count = 0x100_0000 * head[at] + 0x1_0000 * head[at + 1] + 0x100 * head[at + 2]
            + head[at + 3];
        let before = 0x100_0000 * head[at - 4] + 0x1_0000 * head[at - 3] + 0x100 * head[at - 2]
            + head[at - 1];
        count != if shas[i]@[0] == 0 {
            0
        } else {
            before
        }
    }) by {
        let at = 8 + 4 * shas[i]@[0];
        highest_byte_is_first(head, at);
        if shas[i]@[0] > 0 {
            highest_byte_is_first(head, at - 4);
        }
    }
    if any_may_hold(head, shas) {
        let i = choose|i: int| 0 <= i < shas.len() && may_hold(head, #[trigger] shas[i]@);
        assert(may_hold(head, shas[i]@));
    }
}

/// What was read of a plan is added to the hits one by one, under the number of its name;
/// what could not be read is passed over.
pub proof fn reads_are_added_one_by_one(
    hits: Seq<(usize, Vec<u8>)>,
    plan: Seq<(usize, u64)>,
    reads: Seq<Option<Vec<u8>>>,
    i: usize,
    place: u64,
    object: Vec<u8>,
)
    requires
        plan.len() == reads.len(),
    ensures
        after_reads(hits, Seq::empty(), Seq::empty()) == hits,
        after_reads(hits, plan.push((i, place)), reads.push(None)) == after_reads(
            hits,
            plan,
            reads,
        ),
        after_reads(hits, plan.push((i, place)), reads.push(Some(object))) == after_reads(
            hits,
            plan,
            reads,
        ).push((i, object)),
{
    assert(plan.push((i, place)).drop_last() == plan);
    lemma_reads_start(hits, plan, reads, None);
    lemma_reads_start(hits, plan, reads, Some(object));
}

proof fn lemma_reads_start(
    hits: Seq<(usize, Vec<u8>)>,
    plan: Seq<(usize, u64)>,
    reads: Seq<Option<Vec<u8>>>,
    last: Option<Vec<u8>>,
)
    requires
        plan.len() <= reads.len(),
    ensures
        after_reads(hits, plan, reads.push(last)) == after_reads(hits, plan, reads),
    decreases plan.len(),
{
    if plan.len() > 0 {
        lemma_reads_start(hits, plan.drop_last(), reads, last);
    }
}

/// A pack whose index has to be read gives what can be read at the places that are wanted of
/// it; another pack gives nothing. The packs follow each other.
pub proof fn packs_give_what_is_wanted(packs: Seq<Pack>, pack: Pack, shas: Seq<[u8; 20]>)
    ensures
        scan(Seq::empty(), shas).len() == 0,
        ({
            let before = scan(packs, shas);
            let plan = wanted(pack.head, pack.idx, shas, before, shas.len() as int);
            scan(packs.push(pack), shas) == if is_index(pack.head) && any_may_hold(pack.head, shas) {
                after_reads(
                    before,
                    plan,
                    Seq::new(
                        plan.len(),
                        |k: int|
                            if pack.objects.contains_key(plan[k].1) {
                                Some(pack.objects[plan[k].1])
                            } else {
                                None
                            },
                    ),
                )
            } else {
                before
            }
        }),
{
    assert(packs.push(pack).drop_last() == packs);
    let before = scan(packs, shas);
    let plan = wanted(pack.head, pack.idx, shas, before, shas.len() as int);
    assert(reads_of(plan, pack.objects) == Seq::new(
        plan.len(),
        |k: int|
            if pack.objects.contains_key(plan[k].1) {
                Some(pack.objects[plan[k].1])
            } else {
                None
            },
    ));
}

/// The header of an entry: three bits of the first byte are its type, and its four lower ones
/// the lowest bits of the size; each further byte brings seven more.
pub proof fn header_spells_type_and_size(bytes: Seq<u8>, byte: u8)
    requires
        bytes.len() >= 1,
    ensures
        entry_kind(bytes) == (bytes[0] >> 4) & 7,
        size_sum(seq![byte]) == byte & 15,
        size_sum(bytes.push(byte)) == size_sum(bytes) + (byte & 127) * pow2(
            (7 * bytes.len() - 3) as nat,
        ),
        size_sum(bytes) < 0x1_0000_0000_0000_0000 ==> entry_size(bytes) == size_sum(bytes),
{
    let first = bytes[0];
    assert((first >> 4) & 7 == first / 16 % 8) by (bit_vector);
    assert(byte & 15 == byte % 16) by (bit_vector);
    assert(byte & 127 == byte % 128) by (bit_vector);
    assert(bytes.push(byte).drop_last() == bytes);
}

/// A header goes on as long as the highest bit of its last byte is set.
pub proof fn highest_bit_says_that_more_follows(bytes: Seq<u8>)
    ensures
        header_goes_on(bytes) == (bytes.last() & 0x80 == 0x80),
{
    let last = bytes.last();
    assert((last & 0x80 == 0x80) == (last >= 128)) by (bit_vector);
}

/// Tags that are stored in full, type 4, are read up to a size of 65536, and for that twice as
/// many bytes and 1024 more. Nothing else is read.
pub proof fn small_tags_are_read(bytes: Seq<u8>)
    requires
        bytes.len() >= 1,
    ensures
        is_small_tag(bytes) == ((bytes[0] >> 4) & 7 == 4 && entry_size(bytes) <= 65536),
        data_limit(bytes) == if (bytes[0] >> 4) & 7 == 4 && entry_size(bytes) <= 65536 {
            Some(2 * entry_size(bytes) + 1024)
        } else {
            None
        },
{
    let first = bytes[0];
    assert((first >> 4) & 7 == first / 16 % 8) by (bit_vector);
}

/// An entry gives what its data decompresses to, where that is as long as the header says, and
/// nothing of another length.
pub proof fn entry_gives_its_object(header: Seq<u8>, compressed: Seq<u8>, max_out: int)
    requires
        entry_size(header) < max_out,
    ensures
        zlib(compressed, max_out) matches Some(object) && object.len() == entry_size(header)
            ==> entry_object(header, compressed) == zlib(compressed, max_out),
        zlib(compressed, max_out) matches Some(object) && object.len() != entry_size(header)
            ==> entry_object(header, compressed) is None,
        entry_object(header, compressed) matches Some(object) ==> object.len() == entry_size(header)
            && zlib(compressed, entry_size(header) + 1) == Some(object),
{
    if zlib(compressed, max_out) is Some {
        crate::limits::limit_gives_prefix(compressed, entry_size(header) + 1, max_out);
    }
}

} // verus!
