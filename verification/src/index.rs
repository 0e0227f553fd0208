//! The index of a pack file, version 2: where in the pack an object stands.
use vstd::prelude::*;

use crate::bytes::{be_at, comes_before, place_of, read_be32, read_be64, Place};

verus! {

/// The bytes before the table of names: a magic number, a version, and 256 counts.
pub const IDX_HEADER: usize = 1032;

/// The index is one of version 2, by its first bytes, and they are all there.
pub open spec fn is_index(head: Seq<u8>) -> bool {
    &&& head.len() == IDX_HEADER
    &&& head[0] == 0xff
    &&& head[1] == 0x74
    &&& head[2] == 0x4f
    &&& head[3] == 0x63
    &&& be_at(head, 4, 4) == 2
}

/// How many objects have a name whose first byte is at most `byte`.
pub open spec fn fanout(head: Seq<u8>, byte: int) -> int {
    be_at(head, 8 + 4 * byte, 4) as int
}

/// Where the names that start with `first` begin in the table.
pub open spec fn first_row(head: Seq<u8>, first: int) -> int {
    if first == 0 {
        0
    } else {
        fanout(head, first - 1)
    }
}

/// Some name that starts like `sha` is in the index.
pub open spec fn may_hold(head: Seq<u8>, sha: Seq<u8>) -> bool {
    first_row(head, sha[0] as int) != fanout(head, sha[0] as int)
}

/// The index may hold one of the names.
pub open spec fn any_may_hold(head: Seq<u8>, shas: Seq<[u8; 20]>) -> bool {
    exists|i: int| 0 <= i < shas.len() && may_hold(head, #[trigger] shas[i]@)
}

/// The name in row `i` of the table.
pub open spec fn row(idx: Seq<u8>, i: int) -> Seq<u8> {
    idx.subrange(IDX_HEADER + 20 * i, IDX_HEADER + 20 * i + 20)
}

/// Row `i` lies within the index.
pub open spec fn has_row(idx: Seq<u8>, i: int) -> bool {
    0 <= i && IDX_HEADER + 20 * i + 20 <= idx.len()
}

/// Where in the pack the object of row `i` stands, in an index of `count` objects: 31 bits
/// in a first table, or, where the highest bit is set, a row of a second table of 64 bits.
pub open spec fn pack_offset(idx: Seq<u8>, count: int, i: int) -> Option<int> {
    let at = IDX_HEADER + 24 * count + 4 * i;
    let short = be_at(idx, at, 4);
    let long_at = IDX_HEADER + 28 * count + 8 * (short - 0x8000_0000);
    if at + 4 > idx.len() {
        None
    } else if short < 0x8000_0000 {
        Some(short as int)
    } else if long_at + 8 > idx.len() {
        None
    } else {
        Some(be_at(idx, long_at, 8) as int)
    }
}

/// Bisection of the rows from `lo` to below `hi`. It ends without a result on a row that
/// lies beyond the index.
pub open spec fn bisect(idx: Seq<u8>, count: int, lo: int, hi: int, sha: Seq<u8>) -> Option<int>
    decreases hi - lo,
{
    let mid = (lo + hi) / 2;
    if lo >= hi || !has_row(idx, mid) {
        None
    } else if row(idx, mid) == sha {
        pack_offset(idx, count, mid)
    } else if comes_before(row(idx, mid), sha) {
        bisect(idx, count, mid + 1, hi, sha)
    } else {
        bisect(idx, count, lo, mid, sha)
    }
}

/// The rows from `lo` to below `hi` lie within the index, in rising order.
pub open spec fn rising(idx: Seq<u8>, lo: int, hi: int) -> bool {
    &&& forall|i: int| lo <= i < hi ==> #[trigger] has_row(idx, i)
    &&& forall|i: int, j: int|
        lo <= i < j < hi ==> comes_before(#[trigger] row(idx, i), #[trigger] row(idx, j))
}

/// Among rows in rising order, bisection finds the one that holds the name.
pub proof fn bisection_finds(idx: Seq<u8>, count: int, lo: int, hi: int, i: int)
    requires
        rising(idx, lo, hi),
        lo <= i < hi,
    ensures
        bisect(idx, count, lo, hi, row(idx, i)) == pack_offset(idx, count, i),
    decreases hi - lo,
{
    let mid = (lo + hi) / 2;
    assert(has_row(idx, mid));
    crate::bytes::lemma_order_total(row(idx, mid), row(idx, i));
    if mid < i {
        assert(comes_before(row(idx, mid), row(idx, i)));
        bisection_finds(idx, count, mid + 1, hi, i);
    } else if i < mid {
        assert(comes_before(row(idx, i), row(idx, mid)));
        bisection_finds(idx, count, lo, mid, i);
    }
}

/// Bisection finds no name that no row holds.
pub proof fn bisection_finds_nothing_else(
    idx: Seq<u8>,
    count: int,
    lo: int,
    hi: int,
    sha: Seq<u8>,
)
    requires
        forall|i: int| lo <= i < hi && has_row(idx, i) ==> #[trigger] row(idx, i) != sha,
    ensures
        bisect(idx, count, lo, hi, sha) is None,
    decreases hi - lo,
{
    let mid = (lo + hi) / 2;
    if lo < hi && has_row(idx, mid) {
        assert(row(idx, mid) != sha);
        bisection_finds_nothing_else(idx, count, mid + 1, hi, sha);
        bisection_finds_nothing_else(idx, count, lo, mid, sha);
    }
}

/// Whether the first bytes are those of an index of version 2.
pub fn index_ok(head: &[u8]) -> (r: bool)
    ensures
        r == is_index(head@),
{
    head.len() == IDX_HEADER && head[0] == 0xff && head[1] == 0x74 && head[2] == 0x4f && head[3]
        == 0x63 && read_be32(head, 4) == 2
}

/// The rows that hold the names starting with `first`: from the one to below the other.
fn rows_of(head: &[u8], first: u8) -> (r: (u32, u32))
    requires
        head@.len() == IDX_HEADER,
    ensures
        r.0 == first_row(head@, first as int),
        r.1 == fanout(head@, first as int),
{
    let at = 8 + 4 * first as usize;
    let hi = read_be32(head, at);
    if first == 0 {
        (0, hi)
    } else {
        (read_be32(head, at - 4), hi)
    }
}

/// Whether the index may hold one of the names.
pub fn has_candidate(head: &[u8], shas: &Vec<[u8; 20]>) -> (r: bool)
    requires
        head@.len() == IDX_HEADER,
    ensures
        r == any_may_hold(head@, shas@),
{
    let mut i: usize = 0;
    while i < shas.len()
        invariant
            i <= shas@.len(),
            head@.len() == IDX_HEADER,
            forall|j: int| 0 <= j < i ==> !may_hold(head@, #[trigger] shas@[j]@),
        decreases shas@.len() - i,
    {
        let (lo, hi) = rows_of(head, shas[i][0]);
        if lo != hi {
            assert(may_hold(head@, shas@[i as int]@));
            return true;
        }
        i += 1;
    }
    false
}

/// Reads where the object of row `i` stands in the pack.
fn read_offset(idx: &[u8], count: u32, i: u32) -> (r: Option<u64>)
    ensures
        match pack_offset(idx@, count as int, i as int) {
            Some(offset) => r matches Some(found) && found == offset,
            None => r is None,
        },
{
    let at: u64 = 1032 + 24 * count as u64 + 4 * i as u64;
    if at + 4 > idx.len() as u64 {
        return None;
    }
    let short = read_be32(idx, at as usize);
    if short < 0x8000_0000 {
        return Some(short as u64);
    }
    let long_at: u64 = 1032 + 28 * count as u64 + 8 * (short - 0x8000_0000) as u64;
    if long_at + 8 > idx.len() as u64 {
        return None;
    }
    Some(read_be64(idx, long_at as usize))
}

/// Looks for a name among the rows from `lo` to below `hi` and gives where its object
/// stands in the pack. `count` is the number of objects in the index.
pub fn search_idx(idx: &[u8], count: u32, lo: u32, hi: u32, sha: &[u8; 20]) -> (r: Option<u64>)
    ensures
        match bisect(idx@, count as int, lo as int, hi as int, sha@) {
            Some(offset) => r matches Some(found) && found == offset,
            None => r is None,
        },
{
    let ghost goal = bisect(idx@, count as int, lo as int, hi as int, sha@);
    let mut low = lo as u64;
    let mut high = hi as u64;
    while low < high
        invariant
            low <= u32::MAX,
            high <= u32::MAX,
            goal == bisect(idx@, count as int, lo as int, hi as int, sha@),
            goal == bisect(idx@, count as int, low as int, high as int, sha@),
        decreases high - low,
    {
        let mid = (low + high) / 2;
        let at = 1032 + 20 * mid;
        if at + 20 > idx.len() as u64 {
            return None;
        }
        proof {
            crate::bytes::lemma_order_total(row(idx@, mid as int), sha@);
        }
        match place_of(idx, at as usize, sha.as_slice()) {
            Place::Before => {
                low = mid + 1;
            },
            Place::Behind => {
                high = mid;
            },
            Place::Same => {
                return read_offset(idx, count, mid as u32);
            },
        }
    }
    None
}

/// What the hits hold already: object `i` is among them.
pub open spec fn is_hit(hits: Seq<(usize, Vec<u8>)>, i: int) -> bool {
    exists|k: int| 0 <= k < hits.len() && (#[trigger] hits[k]).0 == i
}

/// Where the pack holds each of the first `n` names that have not been hit.
pub open spec fn wanted(
    head: Seq<u8>,
    idx: Seq<u8>,
    shas: Seq<[u8; 20]>,
    hits: Seq<(usize, Vec<u8>)>,
    n: int,
) -> Seq<(usize, u64)>
    decreases n,
{
    if n <= 0 {
        Seq::empty()
    } else {
        let before = wanted(head, idx, shas, hits, n - 1);
        let sha = shas[n - 1]@;
        let first = sha[0] as int;
        match bisect(idx, fanout(head, 255), first_row(head, first), fanout(head, first), sha) {
            Some(offset) if !is_hit(hits, n - 1) => before.push(((n - 1) as usize, offset as u64)),
            _ => before,
        }
    }
}

/// Whether object `i` has been hit.
fn was_hit(hits: &Vec<(usize, Vec<u8>)>, i: usize) -> (r: bool)
    ensures
        r == is_hit(hits@, i as int),
{
    let mut k: usize = 0;
    while k < hits.len()
        invariant
            k <= hits@.len(),
            forall|j: int| 0 <= j < k ==> (#[trigger] hits@[j]).0 != i,
        decreases hits@.len() - k,
    {
        if hits[k].0 == i {
            return true;
        }
        k += 1;
    }
    false
}

/// The names that are still wanted and that the index holds: the number of each, and where
/// its object stands in the pack. `head` is the start of the index, `idx` all of it.
pub fn plan_reads(
    head: &[u8],
    idx: &[u8],
    shas: &Vec<[u8; 20]>,
    hits: &Vec<(usize, Vec<u8>)>,
) -> (r: Vec<(usize, u64)>)
    requires
        head@.len() == IDX_HEADER,
    ensures
        r@ == wanted(head@, idx@, shas@, hits@, shas@.len() as int),
{
    let count = read_be32(head, 1028);
    let mut plan: Vec<(usize, u64)> = Vec::new();
    let mut i: usize = 0;
    while i < shas.len()
        invariant
            i <= shas@.len(),
            head@.len() == IDX_HEADER,
            count == fanout(head@, 255),
            plan@ == wanted(head@, idx@, shas@, hits@, i as int),
        decreases shas@.len() - i,
    {
        if !was_hit(hits, i) {
            let (lo, hi) = rows_of(head, shas[i][0]);
            if let Some(offset) = search_idx(idx, count, lo, hi, &shas[i]) {
                plan.push((i, offset));
            }
        }
        i += 1;
    }
    plan
}

/// Where no name may be in the index, the index holds none that is wanted: to look at its
/// first bytes alone loses nothing.
pub proof fn first_look_loses_nothing(
    head: Seq<u8>,
    idx: Seq<u8>,
    shas: Seq<[u8; 20]>,
    hits: Seq<(usize, Vec<u8>)>,
    n: int,
)
    requires
        0 <= n <= shas.len(),
        !any_may_hold(head, shas),
    ensures
        wanted(head, idx, shas, hits, n) == Seq::<(usize, u64)>::empty(),
    decreases n,
{
    if n > 0 {
        first_look_loses_nothing(head, idx, shas, hits, n - 1);
        assert(!may_hold(head, shas[n - 1]@));
    }
}

/// The plan names objects below `n` that have not been hit, each once.
pub open spec fn plan_ok(
    plan: Seq<(usize, u64)>,
    hits: Seq<(usize, Vec<u8>)>,
    n: int,
) -> bool {
    &&& forall|k: int| 0 <= k < plan.len() ==> (#[trigger] plan[k]).0 < n && !is_hit(
        hits,
        plan[k].0 as int,
    )
    &&& forall|k: int, j: int|
        0 <= k < j < plan.len() ==> (#[trigger] plan[k]).0 < (#[trigger] plan[j]).0
}

/// What is wanted names objects that have not been hit, each once.
pub proof fn lemma_wanted(
    head: Seq<u8>,
    idx: Seq<u8>,
    shas: Seq<[u8; 20]>,
    hits: Seq<(usize, Vec<u8>)>,
    n: int,
)
    requires
        0 <= n <= shas.len() <= usize::MAX,
    ensures
        plan_ok(wanted(head, idx, shas, hits, n), hits, n),
    decreases n,
{
    if n > 0 {
        lemma_wanted(head, idx, shas, hits, n - 1);
    }
}

} // verus!
