//! The Adler-32 checksum.
use vstd::prelude::*;

verus! {

/// The sum of the bytes.
pub open spec fn byte_sum(data: Seq<u8>) -> nat
    decreases data.len(),
{
    if data.len() == 0 {
        0
    } else {
        byte_sum(data.drop_last()) + data.last() as nat
    }
}

/// The sum, over all beginnings of `data` but the empty one, of one more than their bytes.
pub open spec fn running_sum(data: Seq<u8>) -> nat
    decreases data.len(),
{
    if data.len() == 0 {
        0
    } else {
        running_sum(data.drop_last()) + 1 + byte_sum(data)
    }
}

/// The Adler-32 checksum of `data`: the two sums modulo 65521, the running one on top.
pub open spec fn checksum(data: Seq<u8>) -> nat {
    (running_sum(data) % 65521) * 65536 + (1 + byte_sum(data)) % 65521
}

/// The Adler-32 checksum of `data`.
pub fn adler32(data: &[u8]) -> (r: u32)
    ensures
        r == checksum(data@),
{
    let mut a: u32 = 1;
    let mut b: u32 = 0;
    let mut i: usize = 0;
    while i < data.len()
        invariant
            i <= data.len(),
            a == (1 + byte_sum(data@.take(i as int))) % 65521,
            b == running_sum(data@.take(i as int)) % 65521,
        decreases data.len() - i,
    {
        assert(data@.take(i + 1).drop_last() == data@.take(i as int));
        a = (a + data[i] as u32) % 65521;
        b = (b + a) % 65521;
        i += 1;
    }
    assert(data@.take(data@.len() as int) == data@);
    assert(a < 65536 && b < 65536 ==> (b << 16) | a == b * 65536 + a) by (bit_vector);
    (b << 16) | a
}

} // verus!
