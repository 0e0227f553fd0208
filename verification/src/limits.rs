//! What holds of decompression at every limit, and of streams that are cut off.
use vstd::prelude::*;

use crate::bits::{aligned, bit_at, bit_len, bits_value, read_bits};
use crate::block::{
    emit, huffman_block, read_token, repeat_back, room, stored_block, Progress, Token,
};
use crate::huffman::{bits_code, code_at, read_symbol};
use crate::inflate::{block_body, blocks, checksum_ok, zlib};
use crate::tables::{
    block_tables, fixed_dist, fixed_lit, meta_lengths, read_run, read_runs,
};

verus! {

proof fn lemma_repeat_prefix(out: Seq<u8>, dist: int, k: nat, n: nat)
    requires
        k <= n,
    ensures
        repeat_back(out, dist, k).is_prefix_of(repeat_back(out, dist, n)),
        repeat_back(out, dist, n).len() == out.len() + n,
        repeat_back(out, dist, k).len() == out.len() + k,
    decreases n,
{
    if k < n {
        lemma_repeat_prefix(out, dist, k, (n - 1) as nat);
    } else if n > 0 {
        lemma_repeat_prefix(out, dist, (n - 1) as nat, (n - 1) as nat);
    }
}

proof fn lemma_emit_prefix(out: Seq<u8>, token: Token, max_out: int)
    ensures
        emit(out, token, max_out) matches Some(more) ==> out.is_prefix_of(more),
{
    if let Token::Repeat { len, dist } = token {
        lemma_repeat_prefix(out, dist as int, 0, len as nat);
        lemma_repeat_prefix(out, dist as int, 0, room(out.len(), max_out));
    }
}

proof fn lemma_huffman_prefix(
    lit: Seq<u8>,
    dist: Seq<u8>,
    data: Seq<u8>,
    p: int,
    out: Seq<u8>,
    max_out: int,
)
    ensures
        huffman_block(lit, dist, data, p, out, max_out) matches Some(g) ==> out.is_prefix_of(g.out),
    decreases bit_len(data) - p,
{
    crate::block::lemma_token_progress(lit, dist, data, p);
    if let Some((token, q)) = read_token(lit, dist, data, p) {
        lemma_emit_prefix(out, token, max_out);
        if let Some(more) = emit(out, token, max_out) {
            lemma_huffman_prefix(lit, dist, data, q, more, max_out);
        }
    }
}

proof fn lemma_body_prefix(kind: nat, data: Seq<u8>, p: int, out: Seq<u8>, max_out: int)
    ensures
        block_body(kind, data, p, out, max_out) matches Some(g) ==> out.is_prefix_of(g.out),
{
    reveal(block_body);
    lemma_huffman_prefix(fixed_lit(), fixed_dist(), data, p, out, max_out);
    if let Some(tables) = block_tables(data, p) {
        lemma_huffman_prefix(tables.lit, tables.dist, data, tables.pos, out, max_out);
    }
}

proof fn lemma_blocks_prefix(data: Seq<u8>, p: int, out: Seq<u8>, max_out: int)
    ensures
        blocks(data, p, out, max_out) matches Some(g) ==> out.is_prefix_of(g.out),
    decreases bit_len(data) - p,
{
    if let (Some(last), Some(kind)) = (read_bits(data, p, 1), read_bits(data, p + 1, 2)) {
        crate::inflate::lemma_body_progress(kind, data, p + 3, out, max_out);
        lemma_body_prefix(kind, data, p + 3, out, max_out);
        if let Some(g) = block_body(kind, data, p + 3, out, max_out) {
            if !g.capped && last != 1 {
                lemma_blocks_prefix(data, g.pos, g.out, max_out);
            }
        }
    }
}

/// `a` has come as far as `b`, or to the lower limit `m` on the way there.
spec fn stops_at(a: Progress, b: Progress, m: int) -> bool {
    if a.capped {
        a.out.is_prefix_of(b.out) && a.out.len() == m
    } else {
        a == b && a.out.len() <= m
    }
}

proof fn lemma_emit_limits(out: Seq<u8>, token: Token, m: int, n: int)
    requires
        m <= n,
        out.len() < m,
        emit(out, token, n) is Some,
    ensures
        emit(out, token, m) matches Some(less) && less.is_prefix_of(emit(out, token, n)->0) && (
        less.len() < m ==> less == emit(out, token, n)->0) && less.len() <= m,
{
    if let Token::Repeat { len, dist } = token {
        let k = room(out.len(), m);
        let j = room(out.len(), n);
        lemma_repeat_prefix(out, dist as int, len as nat, len as nat);
        lemma_repeat_prefix(out, dist as int, k, k);
        if len <= j {
            if k < len {
                lemma_repeat_prefix(out, dist as int, k, len as nat);
            }
        } else if len <= k {
            lemma_repeat_prefix(out, dist as int, j, len as nat);
        } else {
            lemma_repeat_prefix(out, dist as int, k, j);
        }
    }
}

proof fn lemma_huffman_limits(
    lit: Seq<u8>,
    dist: Seq<u8>,
    data: Seq<u8>,
    p: int,
    out: Seq<u8>,
    m: int,
    n: int,
)
    requires
        m <= n,
        out.len() <= m,
        huffman_block(lit, dist, data, p, out, n) is Some,
    ensures
        huffman_block(lit, dist, data, p, out, m) matches Some(a) && stops_at(
            a,
            huffman_block(lit, dist, data, p, out, n)->0,
            m,
        ),
    decreases bit_len(data) - p,
{
    crate::block::lemma_token_progress(lit, dist, data, p);
    let b = huffman_block(lit, dist, data, p, out, n)->0;
    if out.len() >= m {
        lemma_huffman_prefix(lit, dist, data, p, out, n);
    } else {
        let (token, q) = read_token(lit, dist, data, p)->0;
        if !(token is End) {
            lemma_emit_limits(out, token, m, n);
            let less = emit(out, token, m)->0;
            let more = emit(out, token, n)->0;
            assert(huffman_block(lit, dist, data, q, more, n) == Some(b));
            assert(huffman_block(lit, dist, data, p, out, m) == huffman_block(
                lit,
                dist,
                data,
                q,
                less,
                m,
            ));
            if less.len() < m {
                lemma_huffman_limits(lit, dist, data, q, less, m, n);
            } else {
                lemma_huffman_prefix(lit, dist, data, q, more, n);
                assert(less.is_prefix_of(b.out));
            }
        }
    }
}

proof fn lemma_stored_limits(data: Seq<u8>, p: int, out: Seq<u8>, m: int, n: int)
    requires
        m <= n,
        0 <= p,
        out.len() <= m,
        stored_block(data, p, out, n) is Some,
    ensures
        stored_block(data, p, out, m) matches Some(a) && stops_at(
            a,
            stored_block(data, p, out, n)->0,
            m,
        ),
{
}

proof fn lemma_body_limits(kind: nat, data: Seq<u8>, p: int, out: Seq<u8>, m: int, n: int)
    requires
        m <= n,
        0 <= p,
        out.len() <= m,
        block_body(kind, data, p, out, n) is Some,
    ensures
        block_body(kind, data, p, out, m) matches Some(a) && stops_at(
            a,
            block_body(kind, data, p, out, n)->0,
            m,
        ),
{
    lemma_body_prefix(kind, data, p, out, n);
    reveal(block_body);
    if kind == 0 {
        lemma_stored_limits(data, p, out, m, n);
    } else if out.len() >= m {
    } else if kind == 1 {
        lemma_huffman_limits(fixed_lit(), fixed_dist(), data, p, out, m, n);
    } else {
        let tables = block_tables(data, p)->0;
        lemma_huffman_limits(tables.lit, tables.dist, data, tables.pos, out, m, n);
    }
}

proof fn lemma_blocks_limits(data: Seq<u8>, p: int, out: Seq<u8>, m: int, n: int)
    requires
        m <= n,
        0 <= p,
        out.len() <= m,
        blocks(data, p, out, n) is Some,
    ensures
        blocks(data, p, out, m) matches Some(a) && stops_at(a, blocks(data, p, out, n)->0, m),
    decreases bit_len(data) - p,
{
    let last = read_bits(data, p, 1)->0;
    let kind = read_bits(data, p + 1, 2)->0;
    crate::inflate::lemma_body_progress(kind, data, p + 3, out, m);
    lemma_body_limits(kind, data, p + 3, out, m, n);
    let a = block_body(kind, data, p + 3, out, m)->0;
    let b = block_body(kind, data, p + 3, out, n)->0;
    if a.capped {
        lemma_blocks_prefix(data, b.pos, b.out, n);
    } else if last != 1 {
        lemma_blocks_limits(data, a.pos, a.out, m, n);
    }
}

/// Under a lower limit a stream decompresses to the beginning of the same output: to as many
/// bytes as the limit, or to all of them where there are no more.
pub proof fn limit_gives_prefix(data: Seq<u8>, m: int, n: int)
    requires
        0 <= m <= n,
        zlib(data, n) is Some,
    ensures
        ({
            let all = zlib(data, n)->0;
            zlib(data, m) == Some(
                if all.len() <= m {
                    all
                } else {
                    all.take(m)
                },
            )
        }),
{
    lemma_blocks_limits(data.skip(2), 0, Seq::empty(), m, n);
    let all = zlib(data, n)->0;
    let out = zlib(data, m)->0;
    assert(out == all.take(out.len() as int));
    assert(all.take(all.len() as int) == all);
}

/// The output never exceeds the limit.
pub proof fn output_bounded(data: Seq<u8>, max_out: int)
    requires
        0 <= max_out,
    ensures
        zlib(data, max_out) matches Some(out) ==> out.len() <= max_out,
{
    if zlib(data, max_out) is Some {
        lemma_blocks_limits(data.skip(2), 0, Seq::empty(), max_out, max_out);
    }
}

/// Output that stays below the limit has passed the checksum, as far as the stream still
/// holds it.
pub proof fn short_output_is_checked(data: Seq<u8>, max_out: int)
    requires
        0 <= max_out,
        zlib(data, max_out) is Some,
        (zlib(data, max_out)->0).len() < max_out,
    ensures
        blocks(data.skip(2), 0, Seq::empty(), max_out) matches Some(g) && !g.capped && g.out
            == zlib(data, max_out)->0 && checksum_ok(data.skip(2), g),
{
    lemma_blocks_limits(data.skip(2), 0, Seq::empty(), max_out, max_out);
}

proof fn lemma_more_bit(data: Seq<u8>, more: Seq<u8>, p: int)
    requires
        0 <= p < bit_len(data),
    ensures
        bit_at(data + more, p) == bit_at(data, p),
{
    assert((data + more)[p / 8] == data[p / 8]);
}

proof fn lemma_more_value(data: Seq<u8>, more: Seq<u8>, p: int, n: nat)
    requires
        0 <= p,
        p + n <= bit_len(data),
    ensures
        bits_value(data + more, p, n) == bits_value(data, p, n),
    decreases n,
{
    if n > 0 {
        lemma_more_value(data, more, p, (n - 1) as nat);
        lemma_more_bit(data, more, p + n - 1);
    }
}

proof fn lemma_more_code(data: Seq<u8>, more: Seq<u8>, p: int, n: nat)
    requires
        0 <= p,
        p + n <= bit_len(data),
    ensures
        bits_code(data + more, p, n) == bits_code(data, p, n),
    decreases n,
{
    if n > 0 {
        lemma_more_code(data, more, p, (n - 1) as nat);
        lemma_more_bit(data, more, p + n - 1);
    }
}

proof fn lemma_more_read(data: Seq<u8>, more: Seq<u8>, p: int, n: nat)
    requires
        0 <= p,
    ensures
        read_bits(data, p, n) is Some ==> read_bits(data + more, p, n) == read_bits(data, p, n),
{
    if p + n <= bit_len(data) {
        lemma_more_value(data, more, p, n);
    }
}

proof fn lemma_more_symbol(lengths: Seq<u8>, data: Seq<u8>, more: Seq<u8>, p: int)
    requires
        0 <= p,
    ensures
        read_symbol(lengths, data, p) is Some ==> read_symbol(lengths, data + more, p)
            == read_symbol(lengths, data, p),
{
    crate::huffman::lemma_symbol_read(lengths, data, p);
    if let Some(s) = read_symbol(lengths, data, p) {
        lemma_more_code(data, more, p, lengths[s] as nat);
        assert(code_at(lengths, s, data + more, p));
        crate::huffman::lemma_read_symbol(lengths, s, data + more, p);
    }
}

proof fn lemma_more_token(lit: Seq<u8>, dist: Seq<u8>, data: Seq<u8>, more: Seq<u8>, p: int)
    requires
        0 <= p,
    ensures
        read_token(lit, dist, data, p) is Some ==> read_token(lit, dist, data + more, p)
            == read_token(lit, dist, data, p),
{
    lemma_more_symbol(lit, data, more, p);
    if let Some(s) = read_symbol(lit, data, p) {
        let q = p + lit[s];
        if 256 < s <= 285 {
            let i = s - 257;
            lemma_more_read(data, more, q, crate::block::LEN_EXT@[i] as nat);
            let r = q + crate::block::LEN_EXT@[i];
            lemma_more_symbol(dist, data, more, r);
            if let Some(d) = read_symbol(dist, data, r) {
                lemma_more_read(data, more, r + dist[d], crate::block::DIST_EXT@[d] as nat);
            }
        }
    }
}

proof fn lemma_more_huffman(
    lit: Seq<u8>,
    dist: Seq<u8>,
    data: Seq<u8>,
    more: Seq<u8>,
    p: int,
    out: Seq<u8>,
    max_out: int,
)
    requires
        0 <= p,
        huffman_block(lit, dist, data, p, out, max_out) is Some,
    ensures
        huffman_block(lit, dist, data + more, p, out, max_out) == huffman_block(
            lit,
            dist,
            data,
            p,
            out,
            max_out,
        ),
    decreases bit_len(data) - p,
{
    crate::block::lemma_token_progress(lit, dist, data, p);
    lemma_more_token(lit, dist, data, more, p);
    if out.len() < max_out {
        let (token, q) = read_token(lit, dist, data, p)->0;
        if !(token is End) {
            let next = emit(out, token, max_out)->0;
            lemma_more_huffman(lit, dist, data, more, q, next, max_out);
        }
    }
}

proof fn lemma_more_stored(data: Seq<u8>, more: Seq<u8>, p: int, out: Seq<u8>, max_out: int)
    requires
        0 <= p,
        stored_block(data, p, out, max_out) is Some,
    ensures
        stored_block(data + more, p, out, max_out) == stored_block(data, p, out, max_out),
{
    let q = aligned(p);
    lemma_more_read(data, more, q, 16);
    lemma_more_read(data, more, q + 16, 16);
    let g = stored_block(data, p, out, max_out)->0;
    let start = q / 8 + 4;
    assert(data.subrange(start, g.pos / 8) == (data + more).subrange(start, g.pos / 8));
}

proof fn lemma_more_meta(data: Seq<u8>, more: Seq<u8>, p: int, n: nat)
    requires
        0 <= p,
        p + 3 * n <= bit_len(data),
    ensures
        meta_lengths(data + more, p, n) == meta_lengths(data, p, n),
    decreases n,
{
    if n > 0 {
        lemma_more_meta(data, more, p, (n - 1) as nat);
        lemma_more_value(data, more, p + 3 * (n - 1), 3);
    }
}

proof fn lemma_more_runs(
    meta: Seq<u8>,
    data: Seq<u8>,
    more: Seq<u8>,
    p: int,
    so_far: Seq<u8>,
    total: int,
)
    requires
        0 <= p,
        read_runs(meta, data, p, so_far, total) is Some,
    ensures
        read_runs(meta, data + more, p, so_far, total) == read_runs(meta, data, p, so_far, total),
    decreases total - so_far.len(),
{
    if so_far.len() < total {
        lemma_more_symbol(meta, data, more, p);
        let s = read_symbol(meta, data, p)->0;
        let q = p + meta[s];
        lemma_more_read(data, more, q, 2);
        lemma_more_read(data, more, q, 3);
        lemma_more_read(data, more, q, 7);
        let (length, n, r) = read_run(meta, data, p, so_far)->0;
        lemma_more_runs(
            meta,
            data,
            more,
            r,
            so_far + crate::huffman::same_length(n, length),
            total,
        );
    }
}

proof fn lemma_more_tables(data: Seq<u8>, more: Seq<u8>, p: int)
    requires
        0 <= p,
        block_tables(data, p) is Some,
    ensures
        block_tables(data + more, p) == block_tables(data, p),
{
    lemma_more_read(data, more, p, 5);
    lemma_more_read(data, more, p + 5, 5);
    lemma_more_read(data, more, p + 10, 4);
    let n_lit = read_bits(data, p, 5)->0 + 257;
    let n_dist = read_bits(data, p + 5, 5)->0 + 1;
    let n_meta = read_bits(data, p + 10, 4)->0 + 4;
    lemma_more_meta(data, more, p + 14, n_meta);
    lemma_more_runs(
        meta_lengths(data, p + 14, n_meta),
        data,
        more,
        p + 14 + 3 * n_meta,
        Seq::empty(),
        (n_lit + n_dist) as int,
    );
}

proof fn lemma_more_body(
    kind: nat,
    data: Seq<u8>,
    more: Seq<u8>,
    p: int,
    out: Seq<u8>,
    max_out: int,
)
    requires
        0 <= p,
        block_body(kind, data, p, out, max_out) is Some,
    ensures
        block_body(kind, data + more, p, out, max_out) == block_body(kind, data, p, out, max_out),
{
    reveal(block_body);
    if kind == 0 {
        lemma_more_stored(data, more, p, out, max_out);
    } else if out.len() >= max_out {
    } else if kind == 1 {
        lemma_more_huffman(fixed_lit(), fixed_dist(), data, more, p, out, max_out);
    } else {
        lemma_more_tables(data, more, p);
        crate::tables::lemma_tables_progress(data, p);
        let tables = block_tables(data, p)->0;
        lemma_more_huffman(tables.lit, tables.dist, data, more, tables.pos, out, max_out);
    }
}

/// Bytes behind the blocks do not change what the blocks decompress to.
pub proof fn bytes_behind_do_not_matter(
    data: Seq<u8>,
    more: Seq<u8>,
    p: int,
    out: Seq<u8>,
    max_out: int,
)
    requires
        0 <= p,
        blocks(data, p, out, max_out) is Some,
    ensures
        blocks(data + more, p, out, max_out) == blocks(data, p, out, max_out),
        p < (blocks(data, p, out, max_out)->0).pos <= bit_len(data),
    decreases bit_len(data) - p,
{
    lemma_more_read(data, more, p, 1);
    lemma_more_read(data, more, p + 1, 2);
    let last = read_bits(data, p, 1)->0;
    let kind = read_bits(data, p + 1, 2)->0;
    crate::inflate::lemma_body_progress(kind, data, p + 3, out, max_out);
    lemma_more_body(kind, data, more, p + 3, out, max_out);
    let g = block_body(kind, data, p + 3, out, max_out)->0;
    if !g.capped && last != 1 {
        bytes_behind_do_not_matter(data, more, g.pos, g.out, max_out);
    }
}

/// A stream that is cut off within its blocks is rejected. One that is cut off behind them
/// gives the same output or is rejected; it never gives another output.
pub proof fn cut_off_gives_nothing_else(data: Seq<u8>, n: int, max_out: int)
    requires
        0 <= n <= data.len(),
        zlib(data, max_out) is Some,
    ensures
        zlib(data.take(n), max_out) is None || zlib(data.take(n), max_out) == zlib(data, max_out),
        8 * (n - 2) < (blocks(data.skip(2), 0, Seq::empty(), max_out)->0).pos ==> zlib(
            data.take(n),
            max_out,
        ) is None,
{
    if n >= 2 {
        let body = data.take(n).skip(2);
        let more = data.skip(n);
        assert(data.skip(2) == body + more);
        if blocks(body, 0, Seq::empty(), max_out) is Some {
            bytes_behind_do_not_matter(body, more, 0, Seq::empty(), max_out);
        }
    }
}

} // verus!
