//! What the decoder of zlib streams does, in terms of bits, bytes and outputs.
use vstd::arithmetic::power2::{lemma2_to64, lemma_pow2_adds, lemma_pow2_unfold, pow2};
use vstd::prelude::*;

use crate::bits::{bit_at, bits_value, lemma_one_bit};
use crate::block::{emit, repeat_back, Token};
use crate::huffman::{bits_code, code, count_len, has_room, read_symbol, used};

verus! {

/// The bit at a position is the one that shifting the byte brings to the bottom.
pub proof fn bit_of_a_byte(data: Seq<u8>, p: int)
    requires
        0 <= p < 8 * data.len(),
    ensures
        bit_at(data, p) == ((data[p / 8] >> ((p % 8) as u8)) & 1) as nat,
{
    let byte = data[p / 8];
    let k = (p % 8) as u8;
    vstd::bits::lemma_u8_shr_is_div(byte, k);
    let high = byte >> k;
    assert(high & 1 == high % 2) by (bit_vector);
}

/// Reading bits is reading some of them and then the others, which count for more.
pub proof fn bits_in_two_parts(data: Seq<u8>, p: int, m: nat, n: nat)
    ensures
        bits_value(data, p, m + n) == bits_value(data, p, m) + pow2(m) * bits_value(
            data,
            p + m,
            n,
        ),
        bits_value(data, p, 0) == 0,
        bits_value(data, p, 1) == bit_at(data, p),
    decreases n,
{
    lemma_one_bit(data, p);
    if n == 0 {
        assert(pow2(m) * 0 == 0);
    } else {
        let k = (n - 1) as nat;
        bits_in_two_parts(data, p, m, k);
        lemma_pow2_adds(m, k);
        let b = bit_at(data, p + m + k);
        let rest = bits_value(data, p + m, k);
        assert(bits_value(data, p, m + n) == bits_value(data, p, (m + k) as nat) + b * pow2(
            (m + k) as nat,
        ));
        assert(pow2(m) * (rest + b * pow2(k)) == pow2(m) * rest + b * (pow2(m) * pow2(k)))
            by (nonlinear_arith);
    }
}

/// Reading the bits of a code is reading some of them and then the others, which count for
/// less.
pub proof fn code_in_two_parts(data: Seq<u8>, p: int, m: nat, n: nat)
    ensures
        bits_code(data, p, m + n) == bits_code(data, p, m) * pow2(n) + bits_code(data, p + m, n),
        bits_code(data, p, 0) == 0,
        bits_code(data, p, 1) == bit_at(data, p),
    decreases n,
{
    reveal_with_fuel(bits_code, 2);
    lemma2_to64();
    if n > 0 {
        let k = (n - 1) as nat;
        code_in_two_parts(data, p, m, k);
        lemma_pow2_unfold(n);
        let a = bits_code(data, p, m);
        assert(bits_code(data, p, m + n) == 2 * bits_code(data, p, (m + k) as nat) + bit_at(
            data,
            p + m + k,
        ));
        assert(2 * (a * pow2(k)) == a * (2 * pow2(k))) by (nonlinear_arith);
    } else {
        assert(bits_code(data, p, m) * 1 == bits_code(data, p, m));
    }
}

/// A symbol is read where its code stands, all of it in the data, and only there.
pub proof fn symbol_is_read_by_its_code(lengths: Seq<u8>, s: int, data: Seq<u8>, p: int)
    ensures
        (read_symbol(lengths, data, p) == Some(s)) == (0 <= s < lengths.len() && 1 <= lengths[s]
            <= 15 && p + lengths[s] <= 8 * data.len() && bits_code(data, p, lengths[s] as nat)
            == code(lengths, s)),
{
    crate::huffman::lemma_symbol_read(lengths, data, p);
    if crate::huffman::code_at(lengths, s, data, p) {
        crate::huffman::lemma_read_symbol(lengths, s, data, p);
    }
}

proof fn lemma_count_none(lengths: Seq<u8>, l: int)
    requires
        forall|t: int| 0 <= t < lengths.len() ==> #[trigger] lengths[t] != l,
    ensures
        count_len(lengths, l) == 0,
    decreases lengths.len(),
{
    if lengths.len() > 0 {
        assert(lengths[lengths.len() - 1] != l);
        assert forall|t: int| 0 <= t < lengths.drop_last().len() implies
            #[trigger] lengths.drop_last()[t] != l by {
            assert(lengths[t] != l);
        }
        lemma_count_none(lengths.drop_last(), l);
    }
}

proof fn lemma_used_none(lengths: Seq<u8>, k: nat, m: nat)
    requires
        k <= m,
        forall|t: int| 0 <= t < lengths.len() ==> !(k < #[trigger] lengths[t] <= m),
    ensures
        used(lengths, m) == used(lengths, k) * pow2((m - k) as nat),
    decreases m - k,
{
    lemma2_to64();
    if k < m {
        lemma_used_none(lengths, k, (m - 1) as nat);
        lemma_count_none(lengths, m as int);
        lemma_pow2_unfold((m - k) as nat);
        let u = used(lengths, k);
        let w = pow2((m - k - 1) as nat);
        assert(2 * (u * w) == u * (2 * w)) by (nonlinear_arith);
    } else {
        assert(used(lengths, k) * 1 == used(lengths, k));
    }
}

/// The first code is all zeros: that of the first symbol among those with the shortest codes.
pub proof fn first_code_is_zero(lengths: Seq<u8>, s: int)
    requires
        0 <= s < lengths.len(),
        1 <= lengths[s],
        forall|t: int|
            0 <= t < lengths.len() && 1 <= #[trigger] lengths[t] ==> lengths[s] < lengths[t] || (
            lengths[s] == lengths[t] && s <= t),
    ensures
        code(lengths, s) == 0,
{
    let l = (lengths[s] - 1) as nat;
    lemma_used_none(lengths, 0, l);
    assert(used(lengths, 0) * pow2(l) == 0) by (nonlinear_arith)
        requires
            used(lengths, 0) == 0,
    ;
    let before = lengths.take(s);
    assert forall|t: int| 0 <= t < before.len() implies #[trigger] before[t] != lengths[s] by {
        assert(before[t] == lengths[t]);
    }
    lemma_count_none(before, lengths[s] as int);
}

proof fn lemma_count_range(lengths: Seq<u8>, a: int, b: int, l: int)
    requires
        0 <= a <= b <= lengths.len(),
        forall|t: int| a <= t < b ==> #[trigger] lengths[t] != l,
    ensures
        count_len(lengths.take(b), l) == count_len(lengths.take(a), l),
    decreases b - a,
{
    if a < b {
        assert(lengths.take(b).drop_last() == lengths.take(b - 1));
        assert(lengths[b - 1] != l);
        lemma_count_range(lengths, a, b - 1, l);
    }
}

/// Each further code is the one before it plus one, with zeros behind it up to its own
/// length. Symbols come in the order of their lengths, and in their own order within one.
pub proof fn next_code_follows(lengths: Seq<u8>, s: int, t: int)
    requires
        0 <= s < lengths.len(),
        0 <= t < lengths.len(),
        1 <= lengths[s],
        lengths[s] < lengths[t] || (lengths[s] == lengths[t] && s < t),
        forall|u: int|
            0 <= u < lengths.len() && 1 <= #[trigger] lengths[u] ==> !((lengths[s] < lengths[u] || (
            lengths[s] == lengths[u] && s < u)) && (lengths[u] < lengths[t] || (lengths[u]
                == lengths[t] && u < t))),
    ensures
        code(lengths, t) == (code(lengths, s) + 1) * pow2((lengths[t] - lengths[s]) as nat),
{
    lemma2_to64();
    let l = lengths[s] as nat;
    let m = lengths[t] as nat;
    assert(lengths.take(s + 1).drop_last() == lengths.take(s));
    assert(lengths.take(s + 1).last() == l);
    if l == m {
        assert forall|u: int| s + 1 <= u < t implies #[trigger] lengths[u] != l by {}
        lemma_count_range(lengths, s + 1, t, l as int);
        assert((code(lengths, s) + 1) * 1 == code(lengths, s) + 1);
    } else {
        assert forall|u: int| s + 1 <= u < lengths.len() implies #[trigger] lengths[u] != l by {}
        lemma_count_range(lengths, s + 1, lengths.len() as int, l as int);
        assert(lengths.take(lengths.len() as int) == lengths);
        assert(code(lengths, s) + 1 == used(lengths, l));
        lemma_used_none(lengths, l, (m - 1) as nat);
        lemma_count_range(lengths, 0, t, m as int);
        assert(lengths.take(0) == Seq::<u8>::empty());
        lemma_pow2_unfold((m - l) as nat);
        let u = used(lengths, l);
        let w = pow2((m - l - 1) as nat);
        assert(2 * (u * w) == u * (2 * w)) by (nonlinear_arith);
    }
}

proof fn lemma_used_push(lengths: Seq<u8>, l: u8, m: nat)
    ensures
        used(lengths.push(l), m) == used(lengths, m) + if 1 <= l <= m {
            pow2((m - l) as nat)
        } else {
            0
        },
    decreases m,
{
    lemma2_to64();
    if m > 0 {
        lemma_used_push(lengths, l, (m - 1) as nat);
        assert(lengths.push(l).drop_last() == lengths);
        if l < m && 1 <= l {
            lemma_pow2_unfold((m - l) as nat);
        }
    }
}

/// Code lengths leave room exactly where the parts of all words that the codes take up, each
/// half as many for a bit more, come to no more than all of them.
pub proof fn room_is_a_sum(lengths: Seq<u8>)
    requires
        forall|s: int| 0 <= s < lengths.len() ==> #[trigger] lengths[s] <= 15,
    ensures
        has_room(lengths) == (lengths.fold_left(
            0int,
            |sum: int, l: u8|
                if l == 0 {
                    sum
                } else {
                    sum + pow2((15 - l) as nat)
                },
        ) <= 32768),
{
    lemma2_to64();
    lemma_room_sum(lengths);
}

proof fn lemma_room_sum(lengths: Seq<u8>)
    requires
        forall|s: int| 0 <= s < lengths.len() ==> #[trigger] lengths[s] <= 15,
    ensures
        used(lengths, 15) == lengths.fold_left(
            0int,
            |sum: int, l: u8|
                if l == 0 {
                    sum
                } else {
                    sum + pow2((15 - l) as nat)
                },
        ),
    decreases lengths.len(),
{
    reveal_with_fuel(Seq::fold_left, 2);
    if lengths.len() == 0 {
        assert forall|l: int| count_len(lengths, l) == 0 by {}
        lemma_used_none(lengths, 0, 15);
        assert(0 * pow2(15) == 0);
    } else {
        let start = lengths.drop_last();
        assert forall|s: int| 0 <= s < start.len() implies #[trigger] start[s] <= 15 by {
            assert(lengths[s] <= 15);
        }
        assert(lengths[lengths.len() - 1] <= 15);
        lemma_room_sum(start);
        lemma_used_push(start, lengths.last(), 15);
        assert(start.push(lengths.last()) == lengths);
    }
}

/// A copy makes the output longer by its length and leaves the start of it as it was; each
/// new byte is the one that stands as many places before it as the distance says.
pub proof fn copy_repeats_the_output(out: Seq<u8>, dist: int, n: nat)
    requires
        1 <= dist <= out.len(),
    ensures
        repeat_back(out, dist, n).len() == out.len() + n,
        forall|i: int| 0 <= i < out.len() ==> repeat_back(out, dist, n)[i] == out[i],
        forall|i: int|
            out.len() <= i < out.len() + n ==> #[trigger] repeat_back(out, dist, n)[i]
                == repeat_back(out, dist, n)[i - dist],
    decreases n,
{
    if n > 0 {
        copy_repeats_the_output(out, dist, (n - 1) as nat);
    }
}

/// What one element puts out, where the limit is not reached: a byte is appended; a copy
/// from before the start is refused; another repeats the output up to its length or the
/// limit.
pub proof fn element_is_put_out(out: Seq<u8>, byte: u8, len: u16, dist: u16, max_out: int)
    requires
        out.len() < max_out,
        1 <= dist,
    ensures
        emit(out, Token::Literal(byte), max_out) == Some(out.push(byte)),
        dist > out.len() ==> emit(out, Token::Repeat { len, dist }, max_out) is None,
        dist <= out.len() ==> ({
            let all = emit(out, Token::Repeat { len, dist }, max_out)->0;
            &&& emit(out, Token::Repeat { len, dist }, max_out) is Some
            &&& all.len() == if out.len() + len <= max_out {
                out.len() + len
            } else {
                max_out
            }
            &&& forall|i: int| 0 <= i < out.len() ==> all[i] == out[i]
            &&& forall|i: int| out.len() <= i < all.len() ==> #[trigger] all[i] == all[i - dist]
        }),
{
    if dist <= out.len() {
        copy_repeats_the_output(out, dist as int, len as nat);
        copy_repeats_the_output(out, dist as int, (max_out - out.len()) as nat);
    }
}

} // verus!
