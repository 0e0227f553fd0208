//! Numbers as bytes, the highest byte first, and the order of byte strings.
use vstd::prelude::*;

verus! {

/// The number that bytes spell, the highest first.
pub open spec fn be_value(bytes: Seq<u8>) -> nat
    decreases bytes.len(),
{
    if bytes.len() == 0 {
        0
    } else {
        256 * be_value(bytes.drop_last()) + bytes.last() as nat
    }
}

/// The number in the `n` bytes from `at` on.
pub open spec fn be_at(bytes: Seq<u8>, at: int, n: int) -> nat {
    be_value(bytes.subrange(at, at + n))
}

proof fn lemma_be_at(bytes: Seq<u8>, at: int, n: int)
    requires
        0 <= at,
        0 < n,
        at + n <= bytes.len(),
    ensures
        be_at(bytes, at, n) == 256 * be_at(bytes, at, n - 1) + bytes[at + n - 1],
{
    assert(bytes.subrange(at, at + n).drop_last() == bytes.subrange(at, at + n - 1));
}

/// Reads the number of 32 bits at `at`.
pub fn read_be32(bytes: &[u8], at: usize) -> (r: u32)
    requires
        at + 4 <= bytes@.len(),
    ensures
        r == be_at(bytes@, at as int, 4),
{
    let mut value: u32 = 0;
    let mut k: usize = 0;
    assert(bytes@.subrange(at as int, at as int) == Seq::<u8>::empty());
    while k < 4
        invariant
            k <= 4,
            at + 4 <= bytes.len(),
            value == be_at(bytes@, at as int, k as int),
            k == 0 ==> value < 1,
            k == 1 ==> value < 0x100,
            k == 2 ==> value < 0x1_0000,
            k == 3 ==> value < 0x100_0000,
        decreases 4 - k,
    {
        proof {
            lemma_be_at(bytes@, at as int, k + 1);
        }
        value = value * 256 + bytes[at + k] as u32;
        k += 1;
    }
    value
}

/// Reads the number of 64 bits at `at`.
pub fn read_be64(bytes: &[u8], at: usize) -> (r: u64)
    requires
        at + 8 <= bytes@.len(),
    ensures
        r == be_at(bytes@, at as int, 8),
{
    let high = read_be32(bytes, at);
    let mut value: u64 = high as u64;
    let mut k: usize = 4;
    while k < 8
        invariant
            4 <= k <= 8,
            at + 8 <= bytes.len(),
            value == be_at(bytes@, at as int, k as int),
            k == 4 ==> value < 0x1_0000_0000,
            k == 5 ==> value < 0x100_0000_0000,
            k == 6 ==> value < 0x1_0000_0000_0000,
            k == 7 ==> value < 0x100_0000_0000_0000,
        decreases 8 - k,
    {
        proof {
            lemma_be_at(bytes@, at as int, k + 1);
        }
        value = value * 256 + bytes[at + k] as u64;
        k += 1;
    }
    value
}

/// `a` comes before `b` in the order of byte strings: at the first byte in which they
/// differ `a` is lower, or `b` goes on where `a` ends.
pub open spec fn comes_before(a: Seq<u8>, b: Seq<u8>) -> bool
    decreases a.len(),
{
    if b.len() == 0 {
        false
    } else if a.len() == 0 {
        true
    } else if a[0] != b[0] {
        a[0] < b[0]
    } else {
        comes_before(a.drop_first(), b.drop_first())
    }
}

/// How one byte string stands to another.
pub enum Place {
    /// It comes before the other.
    Before,
    /// It is the other.
    Same,
    /// It comes behind the other.
    Behind,
}

/// Of two byte strings, one comes before the other unless they are the same.
pub proof fn lemma_order_total(a: Seq<u8>, b: Seq<u8>)
    ensures
        a == b ==> !comes_before(a, b),
        a != b ==> comes_before(a, b) != comes_before(b, a),
    decreases a.len(),
{
    if a.len() > 0 && b.len() > 0 && a[0] == b[0] {
        lemma_order_total(a.drop_first(), b.drop_first());
        if a.drop_first() == b.drop_first() {
            assert(a == seq![a[0]] + a.drop_first());
            assert(b == seq![b[0]] + b.drop_first());
        }
    } else if a.len() == 0 && b.len() == 0 {
        assert(a == b);
    }
}

/// Where `n` bytes from `at` on stand to the `n` bytes `key`.
pub fn place_of(bytes: &[u8], at: usize, key: &[u8]) -> (r: Place)
    requires
        at + key@.len() <= bytes@.len(),
    ensures
        ({
            let row = bytes@.subrange(at as int, at + key@.len());
            match r {
                Place::Before => comes_before(row, key@),
                Place::Same => row == key@,
                Place::Behind => comes_before(key@, row),
            }
        }),
{
    let ghost row = bytes@.subrange(at as int, at + key@.len());
    let mut i: usize = 0;
    assert(row.skip(0) == row && key@.skip(0) == key@);
    while i < key.len()
        invariant
            i <= key@.len(),
            at + key@.len() <= bytes.len(),
            row == bytes@.subrange(at as int, at + key@.len()),
            forall|j: int| 0 <= j < i ==> row[j] == key@[j],
            comes_before(row, key@) == comes_before(row.skip(i as int), key@.skip(i as int)),
            comes_before(key@, row) == comes_before(key@.skip(i as int), row.skip(i as int)),
        decreases key@.len() - i,
    {
        let a = bytes[at + i];
        let b = key[i];
        assert(row.skip(i as int)[0] == a && key@.skip(i as int)[0] == b);
        if a < b {
            return Place::Before;
        }
        if a > b {
            return Place::Behind;
        }
        assert(row.skip(i as int).drop_first() == row.skip(i + 1));
        assert(key@.skip(i as int).drop_first() == key@.skip(i + 1));
        i += 1;
    }
    assert(row == key@);
    Place::Same
}

} // verus!
