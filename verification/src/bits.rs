//! Reading a byte string bit by bit: the low bit of each byte comes first.
use vstd::arithmetic::power2::{lemma_pow2, lemma_pow2_unfold, pow2};
use vstd::bits::{lemma_u32_shl_is_mul, lemma_u8_shr_is_div};
use vstd::prelude::*;

verus! {

/// The number of bits in `data`.
pub open spec fn bit_len(data: Seq<u8>) -> int {
    8 * data.len() as int
}

/// The bit at position `p`, 0 or 1.
pub open spec fn bit_at(data: Seq<u8>, p: int) -> nat {
    (data[p / 8] as nat / pow2((p % 8) as nat)) % 2
}

/// The `n` bits from position `p` on as a number, the first bit the lowest.
pub open spec fn bits_value(data: Seq<u8>, p: int, n: nat) -> nat
    decreases n,
{
    if n == 0 {
        0
    } else {
        bits_value(data, p, (n - 1) as nat) + bit_at(data, p + n - 1) * pow2((n - 1) as nat)
    }
}

/// The number in the `n` bits from position `p` on, where `data` has that many.
pub open spec fn read_bits(data: Seq<u8>, p: int, n: nat) -> Option<nat> {
    if p + n <= bit_len(data) {
        Some(bits_value(data, p, n))
    } else {
        None
    }
}

/// The position after reading `n` bits from position `p` on, or as many as there are.
pub open spec fn advance(data: Seq<u8>, p: int, n: nat) -> int {
    if p + n <= bit_len(data) {
        p + n
    } else {
        bit_len(data)
    }
}

/// The first byte boundary that is not before position `p`.
pub open spec fn aligned(p: int) -> int {
    (p + 7) / 8 * 8
}

/// `n` bits hold a number below `2^n`.
pub proof fn lemma_bits_value_bound(data: Seq<u8>, p: int, n: nat)
    ensures
        bits_value(data, p, n) < pow2(n),
    decreases n,
{
    lemma_pow2(n);
    if n == 0 {
        vstd::arithmetic::power2::lemma2_to64();
    } else {
        lemma_bits_value_bound(data, p, (n - 1) as nat);
        lemma_pow2_unfold(n);
        let b = bit_at(data, p + n - 1);
        let w = pow2((n - 1) as nat);
        assert(b * w <= w) by (nonlinear_arith)
            requires
                0 <= b <= 1,
                w >= 0,
        ;
    }
}

/// `n` bits hold a number below `2^m` where `m` is not below `n`.
pub proof fn lemma_bits_value_below(data: Seq<u8>, p: int, n: nat, m: nat)
    requires
        n <= m,
    ensures
        bits_value(data, p, n) < pow2(m),
{
    lemma_bits_value_bound(data, p, n);
    if n < m {
        vstd::arithmetic::power2::lemma_pow2_strictly_increases(n, m);
    }
}

/// One bit is a number by itself.
pub proof fn lemma_one_bit(data: Seq<u8>, p: int)
    ensures
        bits_value(data, p, 1) == bit_at(data, p),
{
    vstd::arithmetic::power2::lemma2_to64();
    reveal_with_fuel(bits_value, 2);
    let b = bit_at(data, p);
    assert(b * pow2(0) == b) by (nonlinear_arith)
        requires
            pow2(0) == 1,
    ;
}

/// A position in a byte string, counted in bits.
pub struct Bits<'a> {
    data: &'a [u8],
    byte: usize,
    bit: u8,
}

impl<'a> Bits<'a> {
    /// The byte string that is read.
    pub closed spec fn data(&self) -> Seq<u8> {
        self.data@
    }

    /// The number of bits before the position.
    pub closed spec fn pos(&self) -> int {
        8 * self.byte + self.bit
    }

    /// The position lies in the byte string or at its end.
    pub closed spec fn wf(&self) -> bool {
        &&& self.byte <= self.data@.len()
        &&& self.bit < 8
        &&& self.byte == self.data@.len() ==> self.bit == 0
    }

    /// A well-formed position is between the two ends of the byte string.
    pub proof fn lemma_pos(&self)
        requires
            self.wf(),
        ensures
            0 <= self.pos() <= bit_len(self.data()),
    {
    }

    /// The position before the first bit of `data`.
    pub fn new(data: &'a [u8]) -> (r: Bits<'a>)
        ensures
            r.wf(),
            r.data() == data@,
            r.pos() == 0,
    {
        Bits { data, byte: 0, bit: 0 }
    }

    /// Reads `n` bits as a number, the first bit the lowest. Where fewer are left, reads
    /// them all and gives `None`.
    pub fn get(&mut self, n: u32) -> (r: Option<u32>)
        requires
            old(self).wf(),
            n <= 32,
        ensures
            final(self).wf(),
            final(self).data() == old(self).data(),
            match r {
                Some(value) => {
                    &&& read_bits(old(self).data(), old(self).pos(), n as nat) == Some(value as nat)
                    &&& final(self).pos() == old(self).pos() + n
                },
                None => {
                    &&& read_bits(old(self).data(), old(self).pos(), n as nat) is None
                    &&& final(self).pos() == bit_len(old(self).data())
                },
            },
    {
        let ghost data = self.data@;
        let ghost start = self.pos();
        let mut value: u32 = 0;
        let mut i: u32 = 0;
        while i < n
            invariant
                i <= n <= 32,
                self.wf(),
                self.data@ == data,
                data == old(self).data(),
                start == old(self).pos(),
                self.pos() == start + i,
                value == bits_value(data, start, i as nat),
            decreases n - i,
        {
            if self.byte >= self.data.len() {
                return None;
            }
            let byte = self.data[self.byte];
            let k = self.bit;
            let bit = ((byte >> k) & 1) as u32;
            proof {
                let p = start + i;
                assert(p / 8 == self.byte && p % 8 == k);
                lemma_u8_shr_is_div(byte, k);
                let high = byte >> k;
                assert(high & 1 == high % 2) by (bit_vector);
                assert(bit == bit_at(data, p));
                lemma_bits_value_bound(data, start, i as nat);
                vstd::arithmetic::power2::lemma2_to64();
                vstd::arithmetic::power2::lemma_pow2_strictly_increases(i as nat, 32);
                lemma_u32_shl_is_mul(1, i);
                assert(value < (1u32 << i));
                assert(bit <= 1 && i < 32 && value < (1u32 << i) ==> value | (bit << i) == value + (
                bit << i) && (bit << i) == bit * (1u32 << i)) by (bit_vector);
                assert(bit * (1u32 << i) == bit_at(data, p) * pow2(i as nat));
            }
            value = value | (bit << i);
            if k == 7 {
                self.byte += 1;
                self.bit = 0;
            } else {
                self.bit = k + 1;
            }
            i += 1;
        }
        Some(value)
    }

    /// Skips to the next byte boundary; stays where it is on one.
    pub fn align(&mut self)
        requires
            old(self).wf(),
        ensures
            final(self).wf(),
            final(self).data() == old(self).data(),
            final(self).pos() == aligned(old(self).pos()),
    {
        if self.bit != 0 {
            assert(self.byte < self.data.len());
            self.byte += 1;
            self.bit = 0;
        }
    }

    /// Reads `n` whole bytes. Where fewer are left, stays where it is and gives `None`.
    pub fn take_bytes(&mut self, n: usize) -> (r: Option<&'a [u8]>)
        requires
            old(self).wf(),
            old(self).pos() % 8 == 0,
        ensures
            final(self).wf(),
            final(self).data() == old(self).data(),
            match r {
                Some(bytes) => {
                    let start = old(self).pos() / 8;
                    &&& start + n <= old(self).data().len()
                    &&& bytes@ == old(self).data().subrange(start, start + n)
                    &&& final(self).pos() == 8 * (start + n)
                },
                None => {
                    &&& old(self).pos() / 8 + n > old(self).data().len()
                    &&& final(self).pos() == old(self).pos()
                },
            },
    {
        if n > self.data.len() - self.byte {
            return None;
        }
        let end = self.byte + n;
        let bytes = vstd::slice::slice_subrange(self.data, self.byte, end);
        self.byte = end;
        Some(bytes)
    }
}

} // verus!
