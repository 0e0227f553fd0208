//! Canonical Huffman codes: codes that follow from the code lengths alone.
use vstd::arithmetic::power2::{lemma2_to64, pow2};
use vstd::prelude::*;

use crate::bits::{bit_at, bit_len, lemma_one_bit, Bits};

verus! {

/// How many symbols have a code of length `l`.
pub open spec fn count_len(lengths: Seq<u8>, l: int) -> nat
    decreases lengths.len(),
{
    if lengths.len() == 0 {
        0
    } else {
        count_len(lengths.drop_last(), l) + if lengths.last() == l {
            1nat
        } else {
            0
        }
    }
}

/// How many symbols before `s` have a code as long as that of `s`.
pub open spec fn rank(lengths: Seq<u8>, s: int) -> nat {
    count_len(lengths.take(s), lengths[s] as int)
}

/// How many of the words of `l` bits start with a code of at most `l` bits, each code
/// counted by itself.
pub open spec fn used(lengths: Seq<u8>, l: nat) -> nat
    decreases l,
{
    if l == 0 {
        0
    } else {
        2 * used(lengths, (l - 1) as nat) + count_len(lengths, l as int)
    }
}

/// The lengths leave room for every code: they meet Kraft's inequality.
pub open spec fn has_room(lengths: Seq<u8>) -> bool {
    used(lengths, 15) <= pow2(15)
}

/// The code of the symbol `s`: within a length the codes are consecutive, in the order
/// of the symbols, and they start behind all shorter codes.
pub open spec fn code(lengths: Seq<u8>, s: int) -> nat {
    2 * used(lengths, (lengths[s] - 1) as nat) + rank(lengths, s)
}

/// The `n` bits from position `p` on as a number, the first bit the highest.
pub open spec fn bits_code(data: Seq<u8>, p: int, n: nat) -> nat
    decreases n,
{
    if n == 0 {
        0
    } else {
        2 * bits_code(data, p, (n - 1) as nat) + bit_at(data, p + n - 1)
    }
}

/// The code of the symbol `s` stands at position `p`.
pub open spec fn code_at(lengths: Seq<u8>, s: int, data: Seq<u8>, p: int) -> bool {
    &&& 0 <= s < lengths.len()
    &&& 1 <= lengths[s] <= 15
    &&& p + lengths[s] <= bit_len(data)
    &&& bits_code(data, p, lengths[s] as nat) == code(lengths, s)
}

/// The symbol whose code stands at position `p`, where there is one.
pub open spec fn read_symbol(lengths: Seq<u8>, data: Seq<u8>, p: int) -> Option<int> {
    if exists|s: int| code_at(lengths, s, data, p) {
        Some(choose|s: int| code_at(lengths, s, data, p))
    } else {
        None
    }
}

/// No length is above 15, and each symbol fits in 16 bits.
pub open spec fn lengths_ok(lengths: Seq<u8>) -> bool {
    &&& lengths.len() <= 0xffff
    &&& forall|s: int| 0 <= s < lengths.len() ==> #[trigger] lengths[s] <= 15
}

/// How many symbols have a code shorter than `l`.
pub open spec fn offset(lengths: Seq<u8>, l: nat) -> nat
    decreases l,
{
    if l <= 1 {
        0
    } else {
        offset(lengths, (l - 1) as nat) + count_len(lengths, l - 1)
    }
}

/// The place of the symbol `s` in the order of the codes.
pub open spec fn slot(lengths: Seq<u8>, s: int) -> nat {
    offset(lengths, lengths[s] as nat) + rank(lengths, s)
}

proof fn lemma_count_take(lengths: Seq<u8>, i: int, l: int)
    requires
        0 <= i < lengths.len(),
    ensures
        count_len(lengths.take(i + 1), l) == count_len(lengths.take(i), l) + if lengths[i] == l {
            1nat
        } else {
            0
        },
{
    assert(lengths.take(i + 1).drop_last() == lengths.take(i));
}

proof fn lemma_count_monotone(lengths: Seq<u8>, i: int, j: int, l: int)
    requires
        0 <= i <= j <= lengths.len(),
    ensures
        count_len(lengths.take(i), l) <= count_len(lengths.take(j), l),
    decreases j - i,
{
    if i < j {
        lemma_count_monotone(lengths, i, j - 1, l);
        lemma_count_take(lengths, j - 1, l);
    }
}

proof fn lemma_count_bound(lengths: Seq<u8>, l: int)
    ensures
        count_len(lengths, l) <= lengths.len(),
    decreases lengths.len(),
{
    if lengths.len() > 0 {
        lemma_count_bound(lengths.drop_last(), l);
    }
}

proof fn lemma_rank_bound(lengths: Seq<u8>, s: int)
    requires
        0 <= s < lengths.len(),
    ensures
        rank(lengths, s) < count_len(lengths, lengths[s] as int),
{
    let l = lengths[s] as int;
    lemma_count_take(lengths, s, l);
    lemma_count_monotone(lengths, s + 1, lengths.len() as int, l);
    assert(lengths.take(lengths.len() as int) == lengths);
}

proof fn lemma_rank_injective(lengths: Seq<u8>, s: int, t: int)
    requires
        0 <= s < lengths.len(),
        0 <= t < lengths.len(),
        lengths[s] == lengths[t],
        rank(lengths, s) == rank(lengths, t),
    ensures
        s == t,
{
    let l = lengths[s] as int;
    if s < t {
        lemma_count_take(lengths, s, l);
        lemma_count_monotone(lengths, s + 1, t, l);
    } else if t < s {
        lemma_count_take(lengths, t, l);
        lemma_count_monotone(lengths, t + 1, s, l);
    }
}

/// Every rank below the number of symbols of a length is taken.
proof fn lemma_rank_exists(lengths: Seq<u8>, l: int, r: nat) -> (s: int)
    requires
        r < count_len(lengths, l),
    ensures
        0 <= s < lengths.len(),
        lengths[s] == l,
        rank(lengths, s) == r,
    decreases lengths.len(),
{
    let shorter = lengths.drop_last();
    let last = lengths.len() - 1;
    assert(shorter == lengths.take(last));
    if r < count_len(shorter, l) {
        let s = lemma_rank_exists(shorter, l, r);
        assert(shorter.take(s) == lengths.take(s));
        s
    } else {
        last
    }
}

proof fn lemma_offset_monotone(lengths: Seq<u8>, k: nat, l: nat)
    requires
        1 <= k < l,
    ensures
        offset(lengths, k) + count_len(lengths, k as int) <= offset(lengths, l),
    decreases l,
{
    if k + 1 < l {
        lemma_offset_monotone(lengths, k, (l - 1) as nat);
    }
}

proof fn lemma_offset_push(lengths: Seq<u8>, x: u8, l: nat)
    ensures
        offset(lengths.push(x), l) == offset(lengths, l) + if 1 <= x < l {
            1nat
        } else {
            0
        },
    decreases l,
{
    if l > 1 {
        lemma_offset_push(lengths, x, (l - 1) as nat);
        assert(lengths.push(x).drop_last() == lengths);
    }
}

/// Every symbol either has a code or has length 0.
proof fn lemma_offset_total(lengths: Seq<u8>)
    requires
        forall|s: int| 0 <= s < lengths.len() ==> #[trigger] lengths[s] <= 15,
    ensures
        offset(lengths, 16) + count_len(lengths, 0) == lengths.len(),
    decreases lengths.len(),
{
    if lengths.len() == 0 {
        lemma_offset_empty(lengths, 16);
    } else {
        let shorter = lengths.drop_last();
        lemma_offset_total(shorter);
        lemma_offset_push(shorter, lengths.last(), 16);
        assert(shorter.push(lengths.last()) == lengths);
    }
}

proof fn lemma_offset_empty(lengths: Seq<u8>, l: nat)
    requires
        lengths.len() == 0,
    ensures
        offset(lengths, l) == 0,
    decreases l,
{
    if l > 1 {
        lemma_offset_empty(lengths, (l - 1) as nat);
    }
}

proof fn lemma_slot_bound(lengths: Seq<u8>, s: int)
    requires
        0 <= s < lengths.len(),
        1 <= lengths[s] <= 15,
    ensures
        slot(lengths, s) < offset(lengths, 16),
{
    lemma_rank_bound(lengths, s);
    lemma_offset_monotone(lengths, lengths[s] as nat, 16);
}

proof fn lemma_slot_injective(lengths: Seq<u8>, s: int, t: int)
    requires
        0 <= s < lengths.len(),
        0 <= t < lengths.len(),
        1 <= lengths[s],
        1 <= lengths[t],
        slot(lengths, s) == slot(lengths, t),
    ensures
        s == t,
{
    lemma_rank_bound(lengths, s);
    lemma_rank_bound(lengths, t);
    if lengths[s] < lengths[t] {
        lemma_offset_monotone(lengths, lengths[s] as nat, lengths[t] as nat);
    } else if lengths[t] < lengths[s] {
        lemma_offset_monotone(lengths, lengths[t] as nat, lengths[s] as nat);
    } else {
        lemma_rank_injective(lengths, s, t);
    }
}

/// Codes that have no room among the words of `l` bits have none among longer words.
proof fn lemma_no_room_later(lengths: Seq<u8>, l: nat, m: nat)
    requires
        l <= m,
        used(lengths, l) > pow2(l),
    ensures
        used(lengths, m) > pow2(m),
    decreases m,
{
    if l < m {
        lemma_no_room_later(lengths, l, (m - 1) as nat);
        vstd::arithmetic::power2::lemma_pow2_unfold(m);
    }
}

/// Where the lengths leave room, each code is a word of its length.
pub proof fn code_fits(lengths: Seq<u8>, s: int)
    requires
        has_room(lengths),
        0 <= s < lengths.len(),
        1 <= lengths[s] <= 15,
    ensures
        code(lengths, s) < pow2(lengths[s] as nat),
{
    let l = lengths[s] as nat;
    if used(lengths, l) > pow2(l) {
        lemma_no_room_later(lengths, l, 15);
    }
    lemma_rank_bound(lengths, s);
}

/// A word that starts with the code of `s` stays below the codes that are longer.
proof fn lemma_below_longer(lengths: Seq<u8>, s: int, data: Seq<u8>, p: int, l: nat)
    requires
        code_at(lengths, s, data, p),
        lengths[s] <= l,
    ensures
        bits_code(data, p, l) < used(lengths, l),
    decreases l,
{
    lemma_rank_bound(lengths, s);
    if lengths[s] < l {
        lemma_below_longer(lengths, s, data, p, (l - 1) as nat);
    }
}

/// No code is the start of another: at most one symbol's code stands at a position.
pub proof fn codes_prefix_free(lengths: Seq<u8>, s: int, t: int, data: Seq<u8>, p: int)
    requires
        code_at(lengths, s, data, p),
        code_at(lengths, t, data, p),
    ensures
        s == t,
{
    if lengths[s] < lengths[t] {
        lemma_below_longer(lengths, s, data, p, (lengths[t] - 1) as nat);
    } else if lengths[t] < lengths[s] {
        lemma_below_longer(lengths, t, data, p, (lengths[s] - 1) as nat);
    } else {
        lemma_rank_injective(lengths, s, t);
    }
}

/// Reading a symbol finds the one whose code stands there.
pub proof fn lemma_read_symbol(lengths: Seq<u8>, s: int, data: Seq<u8>, p: int)
    requires
        code_at(lengths, s, data, p),
    ensures
        read_symbol(lengths, data, p) == Some(s),
{
    let t = choose|t: int| code_at(lengths, t, data, p);
    codes_prefix_free(lengths, s, t, data, p);
}

/// `n` symbols, all of the same length.
pub open spec fn same_length(n: nat, l: u8) -> Seq<u8> {
    Seq::new(n, |i: int| l)
}

/// Counting symbols of one length goes part by part.
pub proof fn lemma_count_append(a: Seq<u8>, b: Seq<u8>, l: int)
    ensures
        count_len(a + b, l) == count_len(a, l) + count_len(b, l),
    decreases b.len(),
{
    if b.len() == 0 {
        assert(a + b == a);
    } else {
        lemma_count_append(a, b.drop_last(), l);
        assert((a + b).drop_last() == a + b.drop_last());
    }
}

/// Among symbols of the same length, all or none have length `l`.
pub proof fn lemma_count_same(n: nat, k: u8, l: int)
    ensures
        count_len(same_length(n, k), l) == if k == l {
            n
        } else {
            0
        },
    decreases n,
{
    if n > 0 {
        lemma_count_same((n - 1) as nat, k, l);
        assert(same_length(n, k).drop_last() == same_length((n - 1) as nat, k));
    }
}

/// The symbol that is read has its code there.
pub proof fn lemma_symbol_read(lengths: Seq<u8>, data: Seq<u8>, p: int)
    ensures
        read_symbol(lengths, data, p) matches Some(s) ==> code_at(lengths, s, data, p),
{
}

/// A table that decodes the canonical code of a list of code lengths.
pub struct Huffman {
    count: [u16; 16],
    symbol: Vec<u16>,
    lengths: Ghost<Seq<u8>>,
}

impl Huffman {
    /// The code lengths, by symbol.
    pub closed spec fn lengths(&self) -> Seq<u8> {
        self.lengths@
    }

    /// The table counts the codes of each length and lists the symbols in the order of
    /// their codes.
    pub closed spec fn wf(&self) -> bool {
        let lengths = self.lengths@;
        &&& lengths_ok(lengths)
        &&& forall|l: int| 0 <= l < 16 ==> #[trigger] self.count@[l] == count_len(lengths, l)
        &&& self.symbol@.len() == offset(lengths, 16)
        &&& forall|s: int|
            0 <= s < lengths.len() && #[trigger] lengths[s] != 0 ==> self.symbol@[slot(
                lengths,
                s,
            ) as int] == s
    }

    /// The table for `lengths`, by symbol; a symbol of length 0 has no code. `None` where
    /// the lengths leave no room for all the codes. Room that is left over is accepted.
    pub fn build(lengths: &[u8]) -> (r: Option<Huffman>)
        requires
            lengths_ok(lengths@),
        ensures
            r is Some == has_room(lengths@),
            r matches Some(table) ==> table.wf() && table.lengths() == lengths@,
    {
        let n = lengths.len();
        let mut count = [0u16; 16];
        let mut i: usize = 0;
        while i < n
            invariant
                i <= n,
                n == lengths@.len(),
                lengths_ok(lengths@),
                forall|l: int|
                    0 <= l < 16 ==> #[trigger] count@[l] == count_len(lengths@.take(i as int), l),
            decreases n - i,
        {
            let k = lengths[i] as usize;
            proof {
                assert(lengths@[i as int] <= 15);
                lemma_count_bound(lengths@.take(i as int), k as int);
                assert forall|l: int| 0 <= l < 16 implies count_len(lengths@.take(i + 1), l)
                    == #[trigger] count@[l] + if k == l {
                    1nat
                } else {
                    0
                } by {
                    lemma_count_take(lengths@, i as int, l);
                }
            }
            count[k] = count[k] + 1;
            i += 1;
        }
        assert(lengths@.take(n as int) == lengths@);

        let mut left: i32 = 1;
        let mut len: usize = 1;
        proof {
            lemma2_to64();
            reveal_with_fuel(used, 1);
        }
        while len < 16
            invariant
                1 <= len <= 16,
                forall|l: int| 0 <= l < 16 ==> #[trigger] count@[l] == count_len(lengths@, l),
                0 <= left,
                left == pow2((len - 1) as nat) - used(lengths@, (len - 1) as nat),
            decreases 16 - len,
        {
            proof {
                lemma2_to64();
                vstd::arithmetic::power2::lemma_pow2_unfold(len as nat);
                if len < 15 {
                    vstd::arithmetic::power2::lemma_pow2_strictly_increases(len as nat, 15);
                }
                assert(pow2(len as nat) <= 32768);
            }
            left = left * 2 - count[len] as i32;
            if left < 0 {
                proof {
                    lemma_no_room_later(lengths@, len as nat, 15);
                }
                return None;
            }
            len += 1;
        }

        let mut offs = [0u16; 16];
        let mut len: usize = 1;
        proof {
            lemma_offset_total(lengths@);
        }
        while len < 15
            invariant
                1 <= len <= 15,
                lengths_ok(lengths@),
                offset(lengths@, 16) <= lengths@.len(),
                forall|l: int| 0 <= l < 16 ==> #[trigger] count@[l] == count_len(lengths@, l),
                forall|l: int| 1 <= l <= len ==> #[trigger] offs@[l] == offset(lengths@, l as nat),
            decreases 15 - len,
        {
            proof {
                lemma_offset_monotone(lengths@, len as nat, 16);
            }
            offs[len + 1] = offs[len] + count[len];
            len += 1;
        }

        let total = n - count[0] as usize;
        let mut symbol: Vec<u16> = vec![0u16; total];
        assert(lengths@.take(0) == Seq::<u8>::empty());
        let mut i: usize = 0;
        while i < n
            invariant
                i <= n,
                n == lengths@.len(),
                lengths_ok(lengths@),
                symbol@.len() == offset(lengths@, 16),
                forall|l: int|
                    1 <= l < 16 ==> #[trigger] offs@[l] == offset(lengths@, l as nat) + count_len(
                        lengths@.take(i as int),
                        l,
                    ),
                forall|s: int|
                    0 <= s < i && #[trigger] lengths@[s] != 0 ==> symbol@[slot(
                        lengths@,
                        s,
                    ) as int] == s,
            decreases n - i,
        {
            let k = lengths[i] as usize;
            proof {
                assert(lengths@[i as int] <= 15);
                assert forall|l: int| 1 <= l < 16 implies count_len(lengths@.take(i + 1), l)
                    == count_len(lengths@.take(i as int), l) + if k == l {
                    1nat
                } else {
                    0
                } by {
                    lemma_count_take(lengths@, i as int, l);
                }
            }
            if k != 0 {
                proof {
                    lemma_slot_bound(lengths@, i as int);
                    lemma_offset_total(lengths@);
                    assert forall|s: int| 0 <= s < i && #[trigger] lengths@[s] != 0 implies slot(
                        lengths@,
                        s,
                    ) != slot(lengths@, i as int) by {
                        if slot(lengths@, s) == slot(lengths@, i as int) {
                            lemma_slot_injective(lengths@, s, i as int);
                        }
                    }
                    assert forall|s: int| 0 <= s < i && #[trigger] lengths@[s] != 0 implies slot(
                        lengths@,
                        s,
                    ) < symbol@.len() by {
                        lemma_slot_bound(lengths@, s);
                    }
                }
                let place = offs[k] as usize;
                assert(place == slot(lengths@, i as int));
                symbol[place] = i as u16;
                offs[k] = offs[k] + 1;
            }
            i += 1;
        }
        Some(Huffman { count, symbol, lengths: Ghost(lengths@) })
    }

    /// Reads the code at the position and gives its symbol. `None` where no symbol's code
    /// stands there: then 15 bits are read, or all that are left.
    pub fn decode(&self, bits: &mut Bits) -> (r: Option<u16>)
        requires
            self.wf(),
            old(bits).wf(),
        ensures
            final(bits).wf(),
            final(bits).data() == old(bits).data(),
            match r {
                Some(s) => {
                    &&& read_symbol(self.lengths(), old(bits).data(), old(bits).pos()) == Some(
                        s as int,
                    )
                    &&& s < self.lengths().len()
                    &&& final(bits).pos() == old(bits).pos() + self.lengths()[s as int]
                },
                None => {
                    &&& read_symbol(self.lengths(), old(bits).data(), old(bits).pos()) is None
                    &&& final(bits).pos() == if old(bits).pos() + 15 <= bit_len(old(bits).data()) {
                        old(bits).pos() + 15
                    } else {
                        bit_len(old(bits).data())
                    }
                },
            },
    {
        let ghost lengths = self.lengths@;
        let ghost data = bits.data();
        let ghost p = bits.pos();
        let mut code: u32 = 0;
        let mut first: u32 = 0;
        let mut index: usize = 0;
        let mut len: usize = 1;
        proof {
            lemma2_to64();
        }
        while len < 16
            invariant
                1 <= len <= 16,
                self.wf(),
                lengths == self.lengths@,
                lengths == self.lengths(),
                data == old(bits).data(),
                p == old(bits).pos(),
                bits.wf(),
                bits.data() == data,
                bits.pos() == p + len - 1,
                code == 2 * bits_code(data, p, (len - 1) as nat),
                code < pow2(len as nat),
                first == 2 * used(lengths, (len - 1) as nat),
                first <= code,
                index == offset(lengths, len as nat),
                forall|s: int| #[trigger] code_at(lengths, s, data, p) ==> lengths[s] >= len,
            decreases 16 - len,
        {
            let bit = match bits.get(1) {
                Some(bit) => bit,
                None => {
                    return None;
                },
            };
            proof {
                lemma2_to64();
                lemma_one_bit(data, p + len - 1);
                vstd::arithmetic::power2::lemma_pow2_unfold((len + 1) as nat);
                if len < 15 {
                    vstd::arithmetic::power2::lemma_pow2_strictly_increases(len as nat, 15);
                }
                assert(pow2(len as nat) <= 32768);
                lemma_offset_monotone(lengths, len as nat, 16);
                lemma_offset_total(lengths);
            }
            code = code + bit;
            let count = self.count[len] as u32;
            if code - first < count {
                proof {
                    let r = (code - first) as nat;
                    let s = lemma_rank_exists(lengths, len as int, r);
                    lemma_slot_bound(lengths, s);
                    bits.lemma_pos();
                    assert(code_at(lengths, s, data, p));
                    lemma_read_symbol(lengths, s, data, p);
                    assert(self.symbol@[slot(lengths, s) as int] == s);
                }
                return Some(self.symbol[index + (code - first) as usize]);
            }
            proof {
                assert forall|s: int| #[trigger] code_at(lengths, s, data, p) implies lengths[s]
                    >= len + 1 by {
                    if lengths[s] == len {
                        lemma_rank_bound(lengths, s);
                    }
                }
            }
            index = index + count as usize;
            first = (first + count) * 2;
            code = code * 2;
            len += 1;
        }
        proof {
            bits.lemma_pos();
        }
        None
    }
}

} // verus!
