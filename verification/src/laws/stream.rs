//! What whole blocks and streams decompress to, step by step.
use vstd::arithmetic::power2::{lemma2_to64, pow2};
use vstd::prelude::*;

use crate::adler::{byte_sum, checksum, running_sum};
use crate::bits::bits_value;
use crate::block::{
    block_output, emit, huffman_block, lemma_token_progress, read_token, repeat_back, stored_block,
    Progress, Token, DIST_BASE, DIST_EXT, LEN_BASE, LEN_EXT,
};
use crate::bytes::{be_at, be_value};
use crate::huffman::{code, count_len, has_room, read_symbol, same_length, used};
use crate::inflate::{block_body, blocks, zlib};
use crate::tables::{
    block_tables, fixed_dist, fixed_lit, meta_lengths, read_run, read_runs, Tables, ORDER,
};

verus! {

proof fn lemma_length_table(m: int)
    requires
        0 <= m < 28,
    ensures
        LEN_EXT@[m] == if m < 4 {
            0
        } else {
            m / 4 - 1
        },
        LEN_BASE@[m] == if m < 4 {
            3 + m
        } else {
            3 + (4 + m % 4) * pow2((m / 4 - 1) as nat)
        },
{
    lemma2_to64();
    let k = m / 4;
    if k == 1 {
        assert(pow2((m / 4 - 1) as nat) == 1);
    } else if k == 2 {
        assert(pow2((m / 4 - 1) as nat) == 2);
    } else if k == 3 {
        assert(pow2((m / 4 - 1) as nat) == 4);
    } else if k == 4 {
        assert(pow2((m / 4 - 1) as nat) == 8);
    } else if k == 5 {
        assert(pow2((m / 4 - 1) as nat) == 16);
    } else if k == 6 {
        assert(pow2((m / 4 - 1) as nat) == 32);
    }
}

proof fn lemma_distance_table(d: int)
    requires
        0 <= d < 30,
    ensures
        DIST_EXT@[d] == if d < 2 {
            0
        } else {
            d / 2 - 1
        },
        DIST_BASE@[d] == if d < 2 {
            1 + d
        } else {
            1 + (2 + d % 2) * pow2((d / 2 - 1) as nat)
        },
{
    lemma2_to64();
    if d >= 2 {
        let k = d / 2 - 1;
        assert(pow2(k as nat) == if k == 0 {
            1
        } else if k == 1 {
            2
        } else if k == 2 {
            4
        } else if k == 3 {
            8
        } else if k == 4 {
            16
        } else if k == 5 {
            32
        } else if k == 6 {
            64
        } else if k == 7 {
            128
        } else if k == 8 {
            256
        } else if k == 9 {
            512
        } else if k == 10 {
            1024
        } else if k == 11 {
            2048
        } else if k == 12 {
            4096
        } else {
            8192int
        });
    }
}

/// A byte and the end of a block are read by their symbols; symbols behind those of the
/// lengths have no meaning.
pub proof fn byte_is_read(lit: Seq<u8>, dist: Seq<u8>, data: Seq<u8>, p: int, s: int)
    requires
        read_symbol(lit, data, p) == Some(s),
        0 <= s,
        s <= 256 || s > 285,
    ensures
        s < 256 ==> read_token(lit, dist, data, p) == Some((Token::Literal(s as u8), p + lit[s])),
        s == 256 ==> read_token(lit, dist, data, p) == Some((Token::End, p + lit[s])),
        s > 285 ==> read_token(lit, dist, data, p) is None,
{
}

/// A copy is read by a length symbol, its extra bits, a distance symbol and its extra bits.
/// From the fifth symbol on, four length symbols share a number of extra bits; from the third
/// on, two distance symbols do. Each symbol begins where the one before it ends; the last
/// length symbol stands for 258 alone.
pub proof fn copy_is_read(lit: Seq<u8>, dist: Seq<u8>, data: Seq<u8>, p: int, s: int, d: int)
    requires
        read_symbol(lit, data, p) == Some(s),
        257 <= s <= 285,
        ({
            let m = s - 257;
            let more: int = if m < 4 || m == 28 {
                0
            } else {
                m / 4 - 1
            };
            let far: int = if d < 2 {
                0
            } else {
                d / 2 - 1
            };
            let q = p + lit[s] + more;
            &&& q <= 8 * data.len()
            &&& read_symbol(dist, data, q) == Some(d)
            &&& 0 <= d < 30
            &&& q + dist[d] + far <= 8 * data.len()
        }),
    ensures
        ({
            let m = s - 257;
            let more: int = if m < 4 || m == 28 {
                0
            } else {
                m / 4 - 1
            };
            let far: int = if d < 2 {
                0
            } else {
                d / 2 - 1
            };
            let q = p + lit[s];
            let r = q + more + dist[d];
            let len = if m < 4 {
                3 + m
            } else if m < 28 {
                3 + (4 + m % 4) * pow2(more as nat) + bits_value(data, q, more as nat)
            } else {
                258
            };
            let back = if d < 2 {
                1 + d
            } else {
                1 + (2 + d % 2) * pow2(far as nat) + bits_value(data, r, far as nat)
            };
            &&& 3 <= len <= 258
            &&& 1 <= back <= 32768
            &&& read_token(lit, dist, data, p) == Some(
                (Token::Repeat { len: len as u16, dist: back as u16 }, r + far),
            )
        }),
{
    lemma2_to64();
    let m = s - 257;
    if m < 28 {
        lemma_length_table(m);
    }
    lemma_distance_table(d);
    let q = p + lit[s];
    let more = LEN_EXT@[m] as nat;
    let r = q + more + dist[d];
    let far = DIST_EXT@[d] as nat;
    crate::bits::lemma_bits_value_bound(data, q, more);
    crate::bits::lemma_bits_value_bound(data, r, far);
    assert(bits_value(data, q, 0) == 0);
    assert(bits_value(data, r, 0) == 0);
    lemma_pow_cases(more);
    lemma_pow_cases(far);
}

proof fn lemma_pow_cases(k: nat)
    requires
        k <= 13,
    ensures
        pow2(k) == if k == 0 {
            1
        } else if k == 1 {
            2
        } else if k == 2 {
            4
        } else if k == 3 {
            8
        } else if k == 4 {
            16
        } else if k == 5 {
            32
        } else if k == 6 {
            64
        } else if k == 7 {
            128
        } else if k == 8 {
            256
        } else if k == 9 {
            512
        } else if k == 10 {
            1024
        } else if k == 11 {
            2048
        } else if k == 12 {
            4096
        } else {
            8192int
        },
{
    lemma2_to64();
}

proof fn lemma_copy_is(out: Seq<u8>, all: Seq<u8>, dist: int, n: nat)
    requires
        1 <= dist <= out.len(),
        all.len() == out.len() + n,
        forall|j: int| 0 <= j < out.len() ==> #[trigger] all[j] == out[j],
        forall|j: int| out.len() <= j < all.len() ==> #[trigger] all[j] == all[j - dist],
    ensures
        repeat_back(out, dist, n) == all,
    decreases n,
{
    if n == 0 {
        assert(all == out);
    } else {
        let start = all.drop_last();
        assert forall|j: int| out.len() <= j < start.len() implies #[trigger] start[j] == start[j
            - dist] by {
            assert(all[j] == all[j - dist]);
        }
        lemma_copy_is(out, start, dist, (n - 1) as nat);
        assert(all[all.len() - 1] == all[all.len() - 1 - dist]);
        assert(all == start.push(all.last()));
    }
}

/// A block puts out its elements one after the other, up to its end: `tokens` are its
/// elements, `ps` the positions before each and behind the last, `outs` the outputs there.
pub proof fn block_puts_out_its_elements(
    lit: Seq<u8>,
    dist: Seq<u8>,
    data: Seq<u8>,
    tokens: Seq<Token>,
    ps: Seq<int>,
    outs: Seq<Seq<u8>>,
    end: int,
    max_out: int,
)
    requires
        ps.len() == tokens.len() + 1,
        outs.len() == tokens.len() + 1,
        forall|i: int|
            #![trigger tokens[i]]
            0 <= i < tokens.len() ==> read_token(lit, dist, data, ps[i]) == Some(
                (tokens[i], ps[i + 1]),
            ) && match tokens[i] {
                Token::Literal(byte) => outs[i + 1] == outs[i].push(byte),
                Token::Repeat { len, dist: back } => {
                    &&& 1 <= back <= outs[i].len()
                    &&& outs[i + 1].len() == outs[i].len() + len
                    &&& forall|j: int|
                        0 <= j < outs[i].len() ==> #[trigger] outs[i + 1][j] == outs[i][j]
                    &&& forall|j: int|
                        outs[i].len() <= j < outs[i + 1].len() ==> #[trigger] outs[i + 1][j]
                            == outs[i + 1][j - back]
                },
                Token::End => false,
            },
        read_token(lit, dist, data, ps.last()) == Some((Token::End, end)),
        outs.last().len() < max_out,
    ensures
        outs[0].len() <= outs.last().len(),
        huffman_block(lit, dist, data, ps[0], outs[0], max_out) == Some(
            Progress { pos: end, out: outs.last(), capped: false },
        ),
    decreases tokens.len(),
{
    lemma_token_progress(lit, dist, data, ps[0]);
    if tokens.len() > 0 {
        let (t, p, o) = (tokens.drop_first(), ps.drop_first(), outs.drop_first());
        let first = tokens[0];
        assert forall|i: int|
            #![trigger t[i]]
            0 <= i < t.len() implies read_token(lit, dist, data, p[i]) == Some((t[i], p[i + 1]))
            && match t[i] {
            Token::Literal(byte) => o[i + 1] == o[i].push(byte),
            Token::Repeat { len, dist: back } => {
                &&& 1 <= back <= o[i].len()
                &&& o[i + 1].len() == o[i].len() + len
                &&& forall|j: int| 0 <= j < o[i].len() ==> #[trigger] o[i + 1][j] == o[i][j]
                &&& forall|j: int|
                    o[i].len() <= j < o[i + 1].len() ==> #[trigger] o[i + 1][j] == o[i + 1][j
                        - back]
            },
            Token::End => false,
        } by {
            assert(t[i] == tokens[i + 1]);
            assert(p[i] == ps[i + 1] && p[i + 1] == ps[i + 2]);
            assert(o[i] == outs[i + 1] && o[i + 1] == outs[i + 2]);
        }
        assert(p.last() == ps.last() && o.last() == outs.last());
        block_puts_out_its_elements(lit, dist, data, t, p, o, end, max_out);
        assert(o[0] == outs[1] && p[0] == ps[1]);
        if let Token::Repeat { len, dist: back } = first {
            lemma_copy_is(outs[0], outs[1], back as int, len as nat);
        }
        assert(emit(outs[0], first, max_out) == Some(outs[1]));
    }
}

/// A block is refused where an element is malformed or cut off, or where a copy reaches back
/// before the start of the output.
pub proof fn malformed_block_is_refused(
    lit: Seq<u8>,
    dist: Seq<u8>,
    data: Seq<u8>,
    p: int,
    out: Seq<u8>,
    max_out: int,
)
    requires
        out.len() < max_out,
        read_token(lit, dist, data, p) is None || (read_token(lit, dist, data, p) matches Some(
            (Token::Repeat { len, dist: back }, _),
        ) && back > out.len()),
    ensures
        huffman_block(lit, dist, data, p, out, max_out) is None,
{
}

/// What came out of a block stays: an element that is put out is followed by the next ones,
/// and at the limit, at the end, or at an element that is refused, the output is as it was.
pub proof fn output_of_a_block_stays(
    lit: Seq<u8>,
    dist: Seq<u8>,
    data: Seq<u8>,
    p: int,
    out: Seq<u8>,
    max_out: int,
)
    ensures
        out.len() >= max_out ==> block_output(lit, dist, data, p, out, max_out) == out,
        out.len() < max_out ==> match read_token(lit, dist, data, p) {
            None => block_output(lit, dist, data, p, out, max_out) == out,
            Some((Token::End, _)) => block_output(lit, dist, data, p, out, max_out) == out,
            Some((token, q)) => match emit(out, token, max_out) {
                None => block_output(lit, dist, data, p, out, max_out) == out,
                Some(more) => block_output(lit, dist, data, p, out, max_out) == block_output(
                    lit,
                    dist,
                    data,
                    q,
                    more,
                    max_out,
                ),
            },
        },
{
    lemma_token_progress(lit, dist, data, p);
}

/// Before the limit, an element that is put out is followed by the rest of the block; at the
/// limit the block ends where it stands.
pub proof fn block_goes_on_to_the_limit(
    lit: Seq<u8>,
    dist: Seq<u8>,
    data: Seq<u8>,
    p: int,
    q: int,
    out: Seq<u8>,
    token: Token,
    more: Seq<u8>,
    max_out: int,
)
    requires
        read_token(lit, dist, data, p) == Some((token, q)),
        !(token is End),
        emit(out, token, max_out) == Some(more),
    ensures
        out.len() >= max_out ==> huffman_block(lit, dist, data, p, out, max_out) == Some(
            Progress { pos: p, out, capped: true },
        ),
        out.len() < max_out ==> huffman_block(lit, dist, data, p, out, max_out) == huffman_block(
            lit,
            dist,
            data,
            q,
            more,
            max_out,
        ),
{
    lemma_token_progress(lit, dist, data, p);
}

/// A stored block gives its bytes as they are, behind a length of two bytes and its
/// complement, from the next whole byte on. It stops at the limit, and is refused where the
/// two lengths do not agree or bytes are missing.
pub proof fn stored_bytes_are_given(data: Seq<u8>, p: int, out: Seq<u8>, max_out: int)
    requires
        0 <= p,
    ensures
        ({
            let i = (p + 7) / 8;
            let len = data[i] + 256 * data[i + 1];
            let other = data[i + 2] + 256 * data[i + 3];
            let left = if out.len() < max_out {
                max_out - out.len()
            } else {
                0
            };
            let n = if len <= left {
                len
            } else {
                left
            };
            if i + 4 <= data.len() && len + other == 65535 && i + 4 + n <= data.len() {
                stored_block(data, p, out, max_out) == Some(
                    Progress {
                        pos: 8 * (i + 4 + n),
                        out: out + data.subrange(i + 4, i + 4 + n),
                        capped: n < len,
                    },
                )
            } else {
                stored_block(data, p, out, max_out) is None
            }
        }),
{
    let i = (p + 7) / 8;
    if i + 4 <= data.len() {
        crate::roundtrip::lemma_two_bytes(data, i);
        crate::roundtrip::lemma_two_bytes(data, i + 2);
    }
}

proof fn lemma_body_of(
    kind: nat,
    data: Seq<u8>,
    p: int,
    out: Seq<u8>,
    done: Progress,
    max_out: int,
)
    requires
        kind == 0 ==> stored_block(data, p, out, max_out) == Some(done),
        kind == 1 ==> out.len() < max_out && huffman_block(
            fixed_lit(),
            fixed_dist(),
            data,
            p,
            out,
            max_out,
        ) == Some(done),
        kind == 2 ==> out.len() < max_out && (block_tables(data, p) matches Some(t)
            && huffman_block(t.lit, t.dist, data, t.pos, out, max_out) == Some(done)),
        kind < 3,
    ensures
        block_body(kind, data, p, out, max_out) == Some(done),
{
    reveal(block_body);
}

/// A block begins with a bit that marks the last one and two bits that say whether it is
/// stored, in the fixed codes, or in codes of its own. Behind the last block, or at the limit,
/// the output stands as it is; behind another one the next block goes on with it.
pub proof fn blocks_follow_each_other(
    data: Seq<u8>,
    p: int,
    out: Seq<u8>,
    kind: nat,
    done: Progress,
    max_out: int,
)
    requires
        0 <= p,
        p + 3 <= 8 * data.len(),
        bits_value(data, p + 1, 2) == kind,
        kind == 0 ==> stored_block(data, p + 3, out, max_out) == Some(done),
        kind == 1 ==> out.len() < max_out && huffman_block(
            fixed_lit(),
            fixed_dist(),
            data,
            p + 3,
            out,
            max_out,
        ) == Some(done),
        kind == 2 ==> out.len() < max_out && (block_tables(data, p + 3) matches Some(t)
            && huffman_block(t.lit, t.dist, data, t.pos, out, max_out) == Some(done)),
        kind < 3,
    ensures
        blocks(data, p, out, max_out) == if done.capped || bits_value(data, p, 1) == 1 {
            Some(done)
        } else {
            blocks(data, done.pos, done.out, max_out)
        },
{
    lemma_body_of(kind, data, p + 3, out, done, max_out);
    crate::inflate::lemma_body_progress(kind, data, p + 3, out, max_out);
}

/// A compressed block that comes when the output is at its limit is not looked into.
pub proof fn full_output_ends_the_stream(data: Seq<u8>, p: int, out: Seq<u8>, max_out: int)
    requires
        0 <= p,
        p + 3 <= 8 * data.len(),
        1 <= bits_value(data, p + 1, 2) <= 2,
        out.len() >= max_out,
    ensures
        blocks(data, p, out, max_out) == Some(Progress { pos: p + 3, out, capped: true }),
{
    reveal(block_body);
}

/// Nothing comes of a stream that ends within the three bits before a block, or whose block
/// has the kind 3, cannot be copied, or has codes or elements that cannot be read.
pub proof fn malformed_blocks_are_refused(
    data: Seq<u8>,
    p: int,
    out: Seq<u8>,
    kind: nat,
    max_out: int,
)
    requires
        0 <= p,
        out.len() < max_out,
        p + 3 > 8 * data.len() || (bits_value(data, p + 1, 2) == kind && (kind == 3 || (kind == 0
            && stored_block(data, p + 3, out, max_out) is None) || (kind == 1 && huffman_block(
            fixed_lit(),
            fixed_dist(),
            data,
            p + 3,
            out,
            max_out,
        ) is None) || (kind == 2 && (block_tables(data, p + 3) matches Some(t) ==> huffman_block(
            t.lit,
            t.dist,
            data,
            t.pos,
            out,
            max_out,
        ) is None)))),
    ensures
        blocks(data, p, out, max_out) is None,
{
    reveal(block_body);
}

/// The checksum of no bytes is 1. One more byte is added to its lower half, and the sum to
/// its upper half, both modulo 65521.
pub proof fn checksum_goes_byte_by_byte(data: Seq<u8>, byte: u8)
    ensures
        checksum(Seq::empty()) == 1,
        ({
            let (high, low) = (checksum(data) as int / 65536, checksum(data) as int % 65536);
            let next = (low + byte) % 65521;
            checksum(data.push(byte)) == (high + next) % 65521 * 65536 + next
        }),
{
    let more = data.push(byte);
    assert(more.drop_last() == data);
    let (a, b) = (1 + byte_sum(data) as int, running_sum(data) as int);
    assert(1 + byte_sum(more) == a + byte);
    assert(running_sum(more) == b + a + byte);
    lemma_halves(b % 65521, a % 65521);
    lemma_sum_modulo(a, byte as int);
    lemma_sum_modulo(b, a + byte);
    lemma_sum_modulo(a + byte, b % 65521);
    assert(byte_sum(Seq::<u8>::empty()) == 0 && running_sum(Seq::<u8>::empty()) == 0);
}

proof fn lemma_halves(high: int, low: int)
    requires
        0 <= high,
        0 <= low < 65536,
    ensures
        (high * 65536 + low) / 65536 == high,
        (high * 65536 + low) % 65536 == low,
{
}

proof fn lemma_sum_modulo(a: int, b: int)
    ensures
        (a % 65521 + b) % 65521 == (a + b) % 65521,
{
}

/// Numbers of four and of eight bytes have their highest byte first.
pub proof fn highest_byte_is_first(data: Seq<u8>, at: int)
    requires
        0 <= at,
    ensures
        at + 4 <= data.len() ==> be_at(data, at, 4) == 0x100_0000 * data[at] + 0x1_0000 * data[at
            + 1] + 0x100 * data[at + 2] + data[at + 3],
        at + 8 <= data.len() ==> be_at(data, at, 8) == 0x1_0000_0000 * be_at(data, at, 4) + be_at(
            data,
            at + 4,
            4,
        ),
{
    reveal_with_fuel(be_value, 5);
    if at + 4 <= data.len() {
        lemma_four(data.subrange(at, at + 4));
    }
    if at + 8 <= data.len() {
        let all = data.subrange(at, at + 8);
        lemma_four(data.subrange(at + 4, at + 8));
        assert(all.drop_last().drop_last().drop_last().drop_last() == data.subrange(at, at + 4));
        let a = all.drop_last();
        let b = a.drop_last();
        let c = b.drop_last();
        assert(be_value(all) == 256 * be_value(a) + all[7]);
        assert(be_value(a) == 256 * be_value(b) + all[6]);
        assert(be_value(b) == 256 * be_value(c) + all[5]);
        assert(be_value(c) == 256 * be_value(c.drop_last()) + all[4]);
    }
}

proof fn lemma_four(four: Seq<u8>)
    requires
        four.len() == 4,
    ensures
        be_value(four) == 0x100_0000 * four[0] + 0x1_0000 * four[1] + 0x100 * four[2] + four[3],
{
    let a = four.drop_last();
    let b = a.drop_last();
    let c = b.drop_last();
    assert(be_value(c.drop_last()) == 0);
    assert(be_value(c) == four[0]);
    assert(be_value(b) == 256 * be_value(c) + four[1]);
    assert(be_value(a) == 256 * be_value(b) + four[2]);
}

/// A stream is a header of two bytes, its blocks, and the checksum of what they put out, from
/// the next whole byte on. Output at the limit is given as it is; other output where the
/// checksum is that of the output, or where the stream ends before it.
pub proof fn stream_is_checked(data: Seq<u8>, max_out: int)
    ensures
        data.len() < 2 || data[0] % 16 != 8 || data[1] / 32 % 2 != 0 ==> zlib(data, max_out)
            is None,
        data.len() >= 2 && data[0] % 16 == 8 && data[1] / 32 % 2 == 0 ==> match blocks(
            data.skip(2),
            0,
            Seq::empty(),
            max_out,
        ) {
            None => zlib(data, max_out) is None,
            Some(g) => {
                let i = 2 + (g.pos + 7) / 8;
                let sum = 0x100_0000 * data[i] + 0x1_0000 * data[i + 1] + 0x100 * data[i + 2]
                    + data[i + 3];
                zlib(data, max_out) == if g.capped || i + 4 > data.len() || sum == checksum(g.out) {
                    Some(g.out)
                } else {
                    None
                }
            },
        },
{
    if data.len() >= 2 {
        let body = data.skip(2);
        if let Some(g) = blocks(body, 0, Seq::empty(), max_out) {
            crate::limits::bytes_behind_do_not_matter(body, Seq::empty(), 0, Seq::empty(), max_out);
            let q = (g.pos + 7) / 8;
            if q + 4 <= body.len() {
                highest_byte_is_first(body, q);
            }
        }
    }
}

proof fn lemma_fixed_counts(s: int)
    requires
        0 <= s <= 288,
    ensures
        count_len(fixed_lit().take(s), 7) == if s <= 256 {
            0
        } else if s <= 280 {
            s - 256
        } else {
            24
        },
        count_len(fixed_lit().take(s), 8) == if s <= 144 {
            s
        } else if s <= 280 {
            144
        } else {
            s - 136
        },
        count_len(fixed_lit().take(s), 9) == if s <= 144 {
            0
        } else if s <= 256 {
            s - 144
        } else {
            112
        },
        forall|l: int| l < 7 || l > 9 ==> #[trigger] count_len(fixed_lit().take(s), l) == 0,
    decreases s,
{
    let start = fixed_lit().take(s);
    if s > 0 {
        lemma_fixed_counts(s - 1);
        assert(start.drop_last() == fixed_lit().take(s - 1));
        assert forall|l: int| l < 7 || l > 9 implies #[trigger] count_len(
            fixed_lit().take(s),
            l,
        ) == 0 by {
            assert(count_len(fixed_lit().take(s - 1), l) == 0);
        }
    }
}

/// The fixed codes: bytes below 144 have eight bits from 00110000 on, the others nine bits
/// from 110010000 on; the end of a block and the first lengths have seven bits from 0000000
/// on, the last lengths eight bits from 11000000 on.
pub proof fn fixed_codes_of_symbols(s: int)
    requires
        0 <= s < 288,
    ensures
        fixed_lit().len() == 288,
        (fixed_lit()[s] as int, code(fixed_lit(), s) as int) == if s < 144 {
            (8int, 0x30 + s)
        } else if s < 256 {
            (9int, 0x190 + (s - 144))
        } else if s < 280 {
            (7int, s - 256)
        } else {
            (8int, 0xc0 + (s - 280))
        },
{
    lemma_fixed_counts(s);
    lemma_fixed_counts(288);
    assert(fixed_lit().take(288) == fixed_lit());
    reveal_with_fuel(used, 10);
}

proof fn lemma_five(n: nat, l: int)
    requires
        n <= 30,
    ensures
        count_len(fixed_dist().take(n as int), l) == if l == 5 {
            n
        } else {
            0
        },
    decreases n,
{
    if n > 0 {
        lemma_five((n - 1) as nat, l);
        assert(fixed_dist().take(n as int).drop_last() == fixed_dist().take(n - 1));
    }
}

/// The fixed codes of distances are the numbers of their symbols, in five bits.
pub proof fn fixed_codes_of_distances(d: int)
    requires
        0 <= d < 30,
    ensures
        fixed_dist().len() == 30,
        fixed_dist()[d] == 5,
        code(fixed_dist(), d) == d,
{
    lemma_five(d as nat, 5);
    lemma_five(30, 1);
    lemma_five(30, 2);
    lemma_five(30, 3);
    lemma_five(30, 4);
    assert(fixed_dist().take(30) == fixed_dist());
    reveal_with_fuel(used, 6);
}

/// A run of code lengths: the symbols up to 15 stand for themselves once; 16 repeats the
/// length before it 3 to 6 times, by two bits; 17 and 18 stand for 3 to 10 and for 11 to 138
/// zeros, by three and by seven bits.
pub proof fn run_is_read(meta: Seq<u8>, data: Seq<u8>, p: int, so_far: Seq<u8>, s: int)
    requires
        read_symbol(meta, data, p) == Some(s),
    ensures
        ({
            let q = p + meta[s];
            let bits = if s == 16 {
                2
            } else if s == 17 {
                3
            } else if s == 18 {
                7int
            } else {
                0
            };
            read_run(meta, data, p, so_far) == if q + bits > 8 * data.len() || s > 18 || (s == 16
                && so_far.len() == 0) {
                None
            } else if s == 16 {
                Some((so_far.last(), (3 + bits_value(data, q, 2)) as nat, q + 2))
            } else if s == 17 {
                Some((0u8, (3 + bits_value(data, q, 3)) as nat, q + 3))
            } else if s == 18 {
                Some((0u8, (11 + bits_value(data, q, 7)) as nat, q + 7))
            } else {
                Some((s as u8, 1nat, q))
            }
        }),
{
    crate::huffman::lemma_symbol_read(meta, data, p);
}

/// Runs follow each other until there are as many lengths as wanted: `runs` are how often
/// each length comes, `so_far` grows by that many of it. A run that goes on behind the last
/// length is refused.
pub proof fn runs_follow_each_other(
    meta: Seq<u8>,
    data: Seq<u8>,
    p: int,
    so_far: Seq<u8>,
    total: int,
)
    ensures
        so_far.len() == total ==> read_runs(meta, data, p, so_far, total) == Some((so_far, p)),
        so_far.len() < total ==> match read_run(meta, data, p, so_far) {
            None => read_runs(meta, data, p, so_far, total) is None,
            Some((length, n, q)) => {
                let more = so_far + Seq::new(n, |i: int| length);
                if more.len() > total {
                    read_runs(meta, data, p, so_far, total) is None
                } else {
                    read_runs(meta, data, p, so_far, total) == read_runs(
                        meta,
                        data,
                        q,
                        more,
                        total,
                    )
                }
            },
        },
{
    if let Some((length, n, q)) = read_run(meta, data, p, so_far) {
        assert(same_length(n, length) == Seq::new(n, |i: int| length));
    }
}

proof fn lemma_meta_at(data: Seq<u8>, p: int, n: nat, meta: Seq<u8>)
    requires
        n <= 19,
        meta.len() == 19,
        forall|k: int|
            #![trigger ORDER@[k]]
            0 <= k < 19 ==> meta[ORDER@[k] as int] == if k < n {
                bits_value(data, p + 3 * k, 3) as u8
            } else {
                0
            },
    ensures
        meta_lengths(data, p, n) == meta,
{
    lemma_meta_part(data, p, n);
    let read = meta_lengths(data, p, n);
    assert forall|i: int| 0 <= i < 19 implies read[i] == meta[i] by {
        let k = crate::codes::lemma_place(i);
        assert(ORDER@[k] == i);
    }
    assert(read == meta);
}

proof fn lemma_meta_part(data: Seq<u8>, p: int, n: nat)
    requires
        n <= 19,
    ensures
        meta_lengths(data, p, n).len() == 19,
        forall|k: int|
            #![trigger ORDER@[k]]
            0 <= k < 19 ==> meta_lengths(data, p, n)[ORDER@[k] as int] == if k < n {
                bits_value(data, p + 3 * k, 3) as u8
            } else {
                0
            },
    decreases n,
{
    crate::codes::lemma_order();
    if n > 0 {
        lemma_meta_part(data, p, (n - 1) as nat);
    }
}

/// A block brings its codes along as three counts, the lengths of a code for code lengths, and
/// the lengths of its two codes in that code, one behind the other. The lengths of the code
/// for code lengths take three bits each; those of the symbols 16, 17, 18, 0 and 8 come first,
/// then those of the others from 7 and 9 outwards.
pub proof fn codes_are_read(
    data: Seq<u8>,
    p: int,
    n: nat,
    meta: Seq<u8>,
    lit: Seq<u8>,
    dist: Seq<u8>,
    end: int,
)
    requires
        0 <= p,
        p + 14 + 3 * n <= 8 * data.len(),
        lit.len() == 257 + bits_value(data, p, 5),
        dist.len() == 1 + bits_value(data, p + 5, 5),
        n == 4 + bits_value(data, p + 10, 4),
        meta.len() == 19,
        ({
            let order: Seq<int> = seq![
                16, 17, 18, 0, 8, 7, 9, 6, 10, 5, 11, 4, 12, 3, 13, 2, 14, 1, 15,
            ];
            forall|k: int|
                0 <= k < 19 ==> meta[#[trigger] order[k]] == if k < n {
                    bits_value(data, p + 14 + 3 * k, 3) as u8
                } else {
                    0
                }
        }),
        has_room(meta),
        read_runs(meta, data, p + 14 + 3 * n, Seq::empty(), (lit.len() + dist.len()) as int)
            == Some((lit + dist, end)),
    ensures
        block_tables(data, p) == if has_room(lit) && has_room(dist) {
            Some(Tables { lit, dist, pos: end })
        } else {
            None
        },
{
    lemma2_to64();
    crate::bits::lemma_bits_value_bound(data, p + 10, 4);
    let order: Seq<int> = seq![16, 17, 18, 0, 8, 7, 9, 6, 10, 5, 11, 4, 12, 3, 13, 2, 14, 1, 15];
    assert forall|k: int|
        #![trigger ORDER@[k]]
        0 <= k < 19 implies meta[ORDER@[k] as int] == if k < n {
        bits_value(data, p + 14 + 3 * k, 3) as u8
    } else {
        0
    } by {
        assert(ORDER@[k] == order[k]);
    }
    lemma_meta_at(data, p + 14, n, meta);
    let all = lit + dist;
    assert(all.take(lit.len() as int) == lit);
    assert(all.skip(lit.len() as int) == dist);
}

} // verus!
