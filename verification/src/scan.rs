//! The search of all packs, and what it finds.
use vstd::prelude::*;

use crate::index::{
    any_may_hold, bisect, bisection_finds, fanout, first_row, has_candidate, index_ok, is_hit,
    is_index, lemma_wanted, may_hold, pack_offset, plan_ok, plan_reads, rising, row, wanted,
    IDX_HEADER,
};

verus! {

/// Every hit is one of `n` names, and no name is hit twice.
pub open spec fn hits_ok(hits: Seq<(usize, Vec<u8>)>, n: int) -> bool {
    &&& forall|k: int| 0 <= k < hits.len() ==> (#[trigger] hits[k]).0 < n
    &&& forall|k: int, j: int|
        0 <= k < j < hits.len() ==> (#[trigger] hits[k]).0 != (#[trigger] hits[j]).0
}

/// A pack: the start of its index and all of its index, as far as they can be read, and the
/// tag objects that can be read from it, by where they stand.
pub struct Pack {
    pub head: Seq<u8>,
    pub idx: Seq<u8>,
    pub objects: Map<u64, Vec<u8>>,
}

/// The hits after the objects of a plan have been read: those that could be read are added,
/// each with the number of its name.
pub open spec fn after_reads(
    hits: Seq<(usize, Vec<u8>)>,
    plan: Seq<(usize, u64)>,
    reads: Seq<Option<Vec<u8>>>,
) -> Seq<(usize, Vec<u8>)>
    decreases plan.len(),
{
    if plan.len() == 0 {
        hits
    } else {
        let before = after_reads(hits, plan.drop_last(), reads);
        match reads[plan.len() - 1] {
            Some(object) => before.push((plan.last().0, object)),
            None => before,
        }
    }
}

/// What is read of a plan keeps the hits in order: it adds only names of the plan.
proof fn lemma_reads_ok(
    hits: Seq<(usize, Vec<u8>)>,
    plan: Seq<(usize, u64)>,
    reads: Seq<Option<Vec<u8>>>,
    n: int,
)
    requires
        hits_ok(hits, n),
        plan_ok(plan, hits, n),
    ensures
        hits_ok(after_reads(hits, plan, reads), n),
        forall|i: int| #[trigger]
            is_hit(after_reads(hits, plan, reads), i) ==> is_hit(hits, i) || (plan.len() > 0 && i
                <= plan.last().0),
    decreases plan.len(),
{
    if plan.len() > 0 {
        let start = plan.drop_last();
        assert(plan_ok(start, hits, n));
        lemma_reads_ok(hits, start, reads, n);
        let before = after_reads(hits, start, reads);
        let after = after_reads(hits, plan, reads);
        let last = plan.last().0;
        assert(plan[plan.len() - 1].0 == last);
        assert(!is_hit(before, last as int)) by {
            if start.len() > 0 {
                assert(plan[start.len() - 1].0 < last);
            }
        }
        assert forall|k: int| 0 <= k < before.len() implies (#[trigger] before[k]).0 != last by {
            if before[k].0 == last {
                assert(is_hit(before, last as int));
            }
        }
        assert forall|i: int| #[trigger] is_hit(after, i) implies is_hit(hits, i) || i <= last by {
            let k = choose|k: int| 0 <= k < after.len() && (#[trigger] after[k]).0 == i;
            if k < before.len() {
                assert(before[k].0 == i);
                assert(is_hit(before, i));
                if start.len() > 0 {
                    assert(plan[start.len() - 1].0 < last);
                }
            }
        }
    }
}

/// The search of all packs for objects by name.
pub struct PackScan {
    shas: Vec<[u8; 20]>,
    hits: Vec<(usize, Vec<u8>)>,
}

impl PackScan {
    /// The names that are looked for.
    pub closed spec fn shas(&self) -> Seq<[u8; 20]> {
        self.shas@
    }

    /// The objects that have been found, each with the number of its name.
    pub closed spec fn hits(&self) -> Seq<(usize, Vec<u8>)> {
        self.hits@
    }

    /// Every hit is one of the names, and no name is hit twice.
    pub open spec fn wf(&self) -> bool {
        &&& self.shas().len() <= usize::MAX
        &&& hits_ok(self.hits(), self.shas().len() as int)
    }

    /// A search for these names.
    pub fn new(shas: Vec<[u8; 20]>) -> (r: PackScan)
        ensures
            r.wf(),
            r.shas() == shas@,
            r.hits() == Seq::<(usize, Vec<u8>)>::empty(),
    {
        assert(shas.len() <= usize::MAX);
        PackScan { shas, hits: Vec::new() }
    }

    /// Whether an index has to be read in full, by its first bytes. One that has fewer, or of
    /// which fewer could be read, need not be.
    pub fn concerns(&self, head: &[u8]) -> (r: bool)
        ensures
            r == (is_index(head@) && any_may_hold(head@, self.shas())),
    {
        index_ok(head) && has_candidate(head, &self.shas)
    }

    /// What to read from the pack of an index: for each name that has not been hit and that
    /// the index holds, its number and where its object stands.
    pub fn plan(&self, head: &[u8], idx: &[u8]) -> (r: Vec<(usize, u64)>)
        requires
            self.wf(),
            head@.len() == IDX_HEADER,
        ensures
            r@ == wanted(head@, idx@, self.shas(), self.hits(), self.shas().len() as int),
            plan_ok(r@, self.hits(), self.shas().len() as int),
    {
        proof {
            lemma_wanted(head@, idx@, self.shas@, self.hits@, self.shas@.len() as int);
        }
        plan_reads(head, idx, &self.shas, &self.hits)
    }

    /// Takes in what was read of a plan: for each of its places the object, or `None` where
    /// it could not be read.
    pub fn take_in(&mut self, plan: &Vec<(usize, u64)>, reads: Vec<Option<Vec<u8>>>)
        requires
            old(self).wf(),
            plan_ok(plan@, old(self).hits(), old(self).shas().len() as int),
            reads@.len() == plan@.len(),
        ensures
            final(self).wf(),
            final(self).shas() == old(self).shas(),
            final(self).hits() == after_reads(old(self).hits(), plan@, reads@),
    {
        let mut reads = reads;
        let ghost all = reads@;
        let ghost before = self.hits@;
        let mut k: usize = 0;
        while k < plan.len()
            invariant
                k <= plan.len(),
                reads@.len() == plan.len(),
                all.len() == plan.len(),
                forall|j: int| k <= j < plan.len() ==> reads@[j] == #[trigger] all[j],
                self.shas@ == old(self).shas@,
                self.hits@ == after_reads(before, plan@.take(k as int), all),
            decreases plan.len() - k,
        {
            assert(plan@.take(k + 1).drop_last() == plan@.take(k as int));
            assert(reads@[k as int] == all[k as int]);
            if let Some(object) = reads[k].take() {
                self.hits.push((plan[k].0, object));
            }
            k += 1;
        }
        assert(plan@.take(k as int) == plan@);
        proof {
            lemma_reads_ok(before, plan@, all, self.shas@.len() as int);
        }
    }

    /// The objects that have been found, in the order in which they were.
    pub fn into_hits(self) -> (r: Vec<(usize, Vec<u8>)>)
        ensures
            r@ == self.hits(),
    {
        self.hits
    }
}

/// What can be read of a plan.
pub open spec fn reads_of(plan: Seq<(usize, u64)>, objects: Map<u64, Vec<u8>>) -> Seq<
    Option<Vec<u8>>,
> {
    Seq::new(
        plan.len(),
        |k: int|
            if objects.contains_key(plan[k].1) {
                Some(objects[plan[k].1])
            } else {
                None
            },
    )
}

/// The hits after one more pack: its index is read in full where it may hold a name, and
/// then what it holds of the names that are still wanted.
pub open spec fn after_pack(
    hits: Seq<(usize, Vec<u8>)>,
    pack: Pack,
    shas: Seq<[u8; 20]>,
) -> Seq<(usize, Vec<u8>)> {
    if is_index(pack.head) && any_may_hold(pack.head, shas) {
        let plan = wanted(pack.head, pack.idx, shas, hits, shas.len() as int);
        after_reads(hits, plan, reads_of(plan, pack.objects))
    } else {
        hits
    }
}

/// The hits after all packs, one after the other.
pub open spec fn scan(packs: Seq<Pack>, shas: Seq<[u8; 20]>) -> Seq<(usize, Vec<u8>)>
    decreases packs.len(),
{
    if packs.len() == 0 {
        Seq::empty()
    } else {
        after_pack(scan(packs.drop_last(), shas), packs.last(), shas)
    }
}

/// The object that the hits hold for name number `i`.
pub open spec fn hit_for(hits: Seq<(usize, Vec<u8>)>, i: int) -> Option<Vec<u8>>
    decreases hits.len(),
{
    if hits.len() == 0 {
        None
    } else {
        let before = hit_for(hits.drop_last(), i);
        if before is Some {
            before
        } else if hits.last().0 == i {
            Some(hits.last().1)
        } else {
            None
        }
    }
}

/// The tag object that a pack holds under a name: its index gives the place, and it can be
/// read there.
pub open spec fn object_in(pack: Pack, sha: Seq<u8>) -> Option<Vec<u8>> {
    let first = sha[0] as int;
    let lo = first_row(pack.head, first);
    let hi = fanout(pack.head, first);
    match bisect(pack.idx, fanout(pack.head, 255), lo, hi, sha) {
        Some(offset) if is_index(pack.head) && pack.objects.contains_key(offset as u64) => Some(
            pack.objects[offset as u64],
        ),
        _ => None,
    }
}

/// The tag object that the first pack holds of those that hold one under the name.
pub open spec fn first_object(packs: Seq<Pack>, sha: Seq<u8>) -> Option<Vec<u8>>
    decreases packs.len(),
{
    if packs.len() == 0 {
        None
    } else {
        let before = first_object(packs.drop_last(), sha);
        if before is Some {
            before
        } else {
            object_in(packs.last(), sha)
        }
    }
}

proof fn lemma_hit_for(hits: Seq<(usize, Vec<u8>)>, i: int)
    ensures
        is_hit(hits, i) == hit_for(hits, i) is Some,
    decreases hits.len(),
{
    if hits.len() > 0 {
        let before = hits.drop_last();
        lemma_hit_for(before, i);
        if is_hit(before, i) {
            let k = choose|k: int| 0 <= k < before.len() && (#[trigger] before[k]).0 == i;
            assert(hits[k].0 == i);
        }
        if hits.last().0 == i {
            assert(hits[hits.len() - 1].0 == i);
        }
        if is_hit(hits, i) && hits.last().0 != i {
            let k = choose|k: int| 0 <= k < hits.len() && (#[trigger] hits[k]).0 == i;
            assert(before[k].0 == i);
        }
    }
}

proof fn lemma_after_reads(
    hits: Seq<(usize, Vec<u8>)>,
    pack: Pack,
    shas: Seq<[u8; 20]>,
    n: int,
    i: int,
)
    requires
        0 <= n <= shas.len() <= usize::MAX,
        0 <= i < shas.len(),
        is_index(pack.head),
    ensures
        ({
            let plan = wanted(pack.head, pack.idx, shas, hits, n);
            hit_for(after_reads(hits, plan, reads_of(plan, pack.objects)), i)
        }) == if hit_for(hits, i) is Some {
            hit_for(hits, i)
        } else if i < n {
            object_in(pack, shas[i]@)
        } else {
            None
        },
    decreases n,
{
    if n > 0 {
        lemma_after_reads(hits, pack, shas, n - 1, i);
        lemma_hit_for(hits, n - 1);
        let before = wanted(pack.head, pack.idx, shas, hits, n - 1);
        let plan = wanted(pack.head, pack.idx, shas, hits, n);
        let reads = reads_of(plan, pack.objects);
        let read = after_reads(hits, plan, reads);
        if plan != before {
            assert(plan.drop_last() == before);
            lemma_same_reads(hits, before, reads, reads_of(before, pack.objects));
            if reads[plan.len() - 1] is Some {
                assert(read.drop_last() == after_reads(hits, before, reads));
            }
        }
    }
}

proof fn lemma_same_reads(
    hits: Seq<(usize, Vec<u8>)>,
    plan: Seq<(usize, u64)>,
    reads: Seq<Option<Vec<u8>>>,
    other: Seq<Option<Vec<u8>>>,
)
    requires
        forall|k: int| 0 <= k < plan.len() ==> reads[k] == #[trigger] other[k],
    ensures
        after_reads(hits, plan, reads) == after_reads(hits, plan, other),
    decreases plan.len(),
{
    if plan.len() > 0 {
        lemma_same_reads(hits, plan.drop_last(), reads, other);
        assert(reads[plan.len() - 1] == other[plan.len() - 1]);
    }
}

/// For each name, the search finds the object that the first pack holds of those that hold
/// one, and nothing where none does.
pub proof fn scan_finds_what_the_packs_hold(packs: Seq<Pack>, shas: Seq<[u8; 20]>, i: int)
    requires
        shas.len() <= usize::MAX,
        0 <= i < shas.len(),
    ensures
        hit_for(scan(packs, shas), i) == first_object(packs, shas[i]@),
    decreases packs.len(),
{
    if packs.len() > 0 {
        let before = packs.drop_last();
        let pack = packs.last();
        scan_finds_what_the_packs_hold(before, shas, i);
        if is_index(pack.head) {
            lemma_after_reads(scan(before, shas), pack, shas, shas.len() as int, i);
            if !any_may_hold(pack.head, shas) {
                assert(!may_hold(pack.head, shas[i]@));
                assert(object_in(pack, shas[i]@) is None);
            }
        }
    }
}

/// An object that a row of the index names, among rows in rising order, is the one that the
/// pack holds under that name.
pub proof fn object_of_a_row_is_held(pack: Pack, i: int, offset: int)
    requires
        is_index(pack.head),
        ({
            let first = row(pack.idx, i)[0] as int;
            let (lo, hi) = (first_row(pack.head, first), fanout(pack.head, first));
            lo <= i < hi && rising(pack.idx, lo, hi)
        }),
        pack_offset(pack.idx, fanout(pack.head, 255), i) == Some(offset),
        pack.objects.contains_key(offset as u64),
    ensures
        object_in(pack, row(pack.idx, i)) == Some(pack.objects[offset as u64]),
{
    let first = row(pack.idx, i)[0] as int;
    let (lo, hi) = (first_row(pack.head, first), fanout(pack.head, first));
    bisection_finds(pack.idx, fanout(pack.head, 255), lo, hi, i);
}

/// The search finds each object under one of the names, and none twice.
pub proof fn no_name_is_hit_twice(packs: Seq<Pack>, shas: Seq<[u8; 20]>)
    requires
        shas.len() <= usize::MAX,
    ensures
        hits_ok(scan(packs, shas), shas.len() as int),
    decreases packs.len(),
{
    if packs.len() > 0 {
        let before = packs.drop_last();
        let pack = packs.last();
        let hits = scan(before, shas);
        let n = shas.len() as int;
        no_name_is_hit_twice(before, shas);
        lemma_wanted(pack.head, pack.idx, shas, hits, n);
        let plan = wanted(pack.head, pack.idx, shas, hits, n);
        lemma_reads_ok(hits, plan, reads_of(plan, pack.objects), n);
    }
}

/// The hits hold what is found for a name, where no name is hit twice.
pub proof fn lemma_hits_hold(hits: Seq<(usize, Vec<u8>)>, n: int)
    requires
        hits_ok(hits, n),
    ensures
        forall|k: int|
            0 <= k < hits.len() ==> hit_for(hits, (#[trigger] hits[k]).0 as int) == Some(hits[k].1),
        forall|i: int|
            (#[trigger] hit_for(hits, i)) is Some ==> exists|k: int|
                0 <= k < hits.len() && (#[trigger] hits[k]).0 == i && Some(hits[k].1) == hit_for(
                    hits,
                    i,
                ),
    decreases hits.len(),
{
    if hits.len() > 0 {
        let before = hits.drop_last();
        assert(hits_ok(before, n)) by {
            assert forall|k: int| 0 <= k < before.len() implies (#[trigger] before[k]).0 < n by {
                assert(hits[k].0 < n);
            }
            assert forall|k: int, j: int| 0 <= k < j < before.len() implies (
            #[trigger] before[k]).0 != (#[trigger] before[j]).0 by {
                assert(hits[k].0 != hits[j].0);
            }
        }
        lemma_hits_hold(before, n);
        let end = hits.len() - 1;
        assert forall|k: int| 0 <= k < hits.len() implies hit_for(
            hits,
            (#[trigger] hits[k]).0 as int,
        ) == Some(hits[k].1) by {
            if k < end {
                assert(before[k] == hits[k]);
            } else {
                lemma_hit_for(before, hits[end].0 as int);
                if is_hit(before, hits[end].0 as int) {
                    let j = choose|j: int|
                        0 <= j < before.len() && (#[trigger] before[j]).0 == hits[end].0;
                    assert(hits[j].0 != hits[end].0);
                }
            }
        }
        assert forall|i: int| (#[trigger] hit_for(hits, i)) is Some implies exists|k: int|
            0 <= k < hits.len() && (#[trigger] hits[k]).0 == i && Some(hits[k].1) == hit_for(
                hits,
                i,
            ) by {
            if hit_for(before, i) is Some {
                let k = choose|k: int|
                    0 <= k < before.len() && (#[trigger] before[k]).0 == i && Some(before[k].1)
                        == hit_for(before, i);
                assert(hits[k] == before[k]);
            } else {
                assert(hits[end].0 == i);
            }
        }
    }
}

/// Nothing can be learned from the index of a pack: it is of another version than 2, or it
/// cannot be read as far as its first name.
pub open spec fn tells_nothing(pack: Pack) -> bool {
    !is_index(pack.head) || pack.idx.len() < IDX_HEADER + 20
}

proof fn lemma_nothing_wanted(
    pack: Pack,
    shas: Seq<[u8; 20]>,
    hits: Seq<(usize, Vec<u8>)>,
    n: int,
)
    requires
        pack.idx.len() < IDX_HEADER + 20,
    ensures
        wanted(pack.head, pack.idx, shas, hits, n) == Seq::<(usize, u64)>::empty(),
    decreases n,
{
    if n > 0 {
        lemma_nothing_wanted(pack, shas, hits, n - 1);
    }
}

/// A pack from whose index nothing can be learned is passed over, wherever it comes: the hits
/// are what they are without it.
pub proof fn other_index_changes_nothing(packs: Seq<Pack>, k: int, shas: Seq<[u8; 20]>)
    requires
        0 <= k < packs.len(),
        tells_nothing(packs[k]),
    ensures
        scan(packs.remove(k), shas) == scan(packs, shas),
    decreases packs.len(),
{
    let before = packs.drop_last();
    if k == packs.len() - 1 {
        assert(packs.remove(k) == before);
        if is_index(packs[k].head) {
            lemma_nothing_wanted(packs[k], shas, scan(before, shas), shas.len() as int);
        }
    } else {
        other_index_changes_nothing(before, k, shas);
        assert(packs.remove(k).drop_last() == before.remove(k));
        assert(packs.remove(k).last() == packs.last());
    }
}

/// Where no names are looked for, or there are no packs, there are no hits.
pub proof fn nothing_to_search(packs: Seq<Pack>, shas: Seq<[u8; 20]>)
    requires
        packs.len() == 0 || shas.len() == 0,
    ensures
        scan(packs, shas) == Seq::<(usize, Vec<u8>)>::empty(),
    decreases packs.len(),
{
    if packs.len() > 0 {
        nothing_to_search(packs.drop_last(), shas);
        assert(!any_may_hold(packs.last().head, shas));
    }
}

} // verus!
