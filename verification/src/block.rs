//! The blocks of a deflate stream (RFC 1951): stored ones and compressed ones.
use vstd::prelude::*;

use crate::bits::{advance, aligned, bit_len, read_bits, Bits};
use crate::huffman::{read_symbol, Huffman};

verus! {

/// The shortest copy of each length symbol from 257 to 285.
pub const LEN_BASE: [u16; 29] = [
    3, 4, 5, 6, 7, 8, 9, 10, 11, 13, 15, 17, 19, 23, 27, 31, 35, 43, 51, 59, 67, 83, 99, 115, 131,
    163, 195, 227, 258,
];

/// The number of extra bits of each length symbol.
pub const LEN_EXT: [u8; 29] = [
    0, 0, 0, 0, 0, 0, 0, 0, 1, 1, 1, 1, 2, 2, 2, 2, 3, 3, 3, 3, 4, 4, 4, 4, 5, 5, 5, 5, 0,
];

/// The shortest distance of each distance symbol.
pub const DIST_BASE: [u16; 30] = [
    1, 2, 3, 4, 5, 7, 9, 13, 17, 25, 33, 49, 65, 97, 129, 193, 257, 385, 513, 769, 1025, 1537,
    2049, 3073, 4097, 6145, 8193, 12289, 16385, 24577,
];

/// The number of extra bits of each distance symbol.
pub const DIST_EXT: [u8; 30] = [
    0, 0, 0, 0, 1, 1, 2, 2, 3, 3, 4, 4, 5, 5, 6, 6, 7, 7, 8, 8, 9, 9, 10, 10, 11, 11, 12, 12, 13,
    13,
];

proof fn lemma_extra_bits()
    ensures
        forall|i: int| 0 <= i < 29 ==> #[trigger] LEN_EXT@[i] <= 5,
        forall|i: int| 0 <= i < 29 ==> 3 <= #[trigger] LEN_BASE@[i] <= 258,
        forall|i: int| 0 <= i < 30 ==> #[trigger] DIST_EXT@[i] <= 13,
        forall|i: int| 0 <= i < 30 ==> 1 <= #[trigger] DIST_BASE@[i] <= 24577,
{
}

/// One element of a compressed block.
#[derive(Clone, Copy)]
pub enum Token {
    /// A byte as it is.
    Literal(u8),
    /// The end of the block.
    End,
    /// `len` bytes again that were put out `dist` bytes ago.
    Repeat { len: u16, dist: u16 },
}

/// How far decompression has come.
pub struct Progress {
    /// The position in the compressed data.
    pub pos: int,
    /// What has been put out.
    pub out: Seq<u8>,
    /// Whether the output has reached its limit.
    pub capped: bool,
}

/// The rest of a copy, behind its length symbol: number `i` of the length symbols.
pub open spec fn read_repeat(dist: Seq<u8>, data: Seq<u8>, p: int, i: int) -> Option<
    (Token, int),
> {
    match read_bits(data, p, LEN_EXT@[i] as nat) {
        None => None,
        Some(more_len) => {
            let q = p + LEN_EXT@[i];
            match read_symbol(dist, data, q) {
                None => None,
                Some(d) => {
                    let r = q + dist[d];
                    if d >= 30 {
                        None
                    } else {
                        match read_bits(data, r, DIST_EXT@[d] as nat) {
                            None => None,
                            Some(more_dist) => Some(
                                (
                                    Token::Repeat {
                                        len: (LEN_BASE@[i] + more_len) as u16,
                                        dist: (DIST_BASE@[d] + more_dist) as u16,
                                    },
                                    r + DIST_EXT@[d],
                                ),
                            ),
                        }
                    }
                },
            }
        },
    }
}

/// The element of a block at position `p`, and the position behind it.
pub open spec fn read_token(lit: Seq<u8>, dist: Seq<u8>, data: Seq<u8>, p: int) -> Option<
    (Token, int),
> {
    match read_symbol(lit, data, p) {
        None => None,
        Some(s) => {
            let q = p + lit[s];
            if s < 256 {
                Some((Token::Literal(s as u8), q))
            } else if s == 256 {
                Some((Token::End, q))
            } else if s <= 285 {
                read_repeat(dist, data, q, s - 257)
            } else {
                None
            }
        },
    }
}

/// Where the reading of an element stops: behind it, or where it turns out to be malformed or
/// cut off.
pub open spec fn token_stop(lit: Seq<u8>, dist: Seq<u8>, data: Seq<u8>, p: int) -> int {
    match read_symbol(lit, data, p) {
        None => advance(data, p, 15),
        Some(s) => {
            let q = p + lit[s];
            if s <= 256 || s > 285 {
                q
            } else {
                let extra = LEN_EXT@[s - 257] as nat;
                match read_bits(data, q, extra) {
                    None => bit_len(data),
                    Some(_) => match read_symbol(dist, data, q + extra) {
                        None => advance(data, q + extra, 15),
                        Some(d) => {
                            let r = q + extra + dist[d];
                            if d >= 30 {
                                r
                            } else {
                                advance(data, r, DIST_EXT@[d] as nat)
                            }
                        },
                    },
                }
            }
        },
    }
}

/// `out` with `n` more bytes, each equal to the one `dist` bytes before it.
pub open spec fn repeat_back(out: Seq<u8>, dist: int, n: nat) -> Seq<u8>
    decreases n,
{
    if n == 0 {
        out
    } else {
        let so_far = repeat_back(out, dist, (n - 1) as nat);
        so_far.push(so_far[so_far.len() - dist])
    }
}

/// How many bytes are missing to the limit.
pub open spec fn room(len: nat, max_out: int) -> nat {
    if len < max_out {
        (max_out - len) as nat
    } else {
        0
    }
}

/// The output after one element, where there is room for a byte; a copy from before the
/// start of the output has no meaning, and a copy stops at the limit.
pub open spec fn emit(out: Seq<u8>, token: Token, max_out: int) -> Option<Seq<u8>> {
    match token {
        Token::Literal(byte) => Some(out.push(byte)),
        Token::End => Some(out),
        Token::Repeat { len, dist } => if dist > out.len() {
            None
        } else if len <= room(out.len(), max_out) {
            Some(repeat_back(out, dist as int, len as nat))
        } else {
            Some(repeat_back(out, dist as int, room(out.len(), max_out)))
        },
    }
}

/// An element takes up at least one bit.
pub proof fn lemma_token_progress(lit: Seq<u8>, dist: Seq<u8>, data: Seq<u8>, p: int)
    ensures
        read_token(lit, dist, data, p) matches Some((_, q)) ==> p < q <= bit_len(data),
{
    crate::huffman::lemma_symbol_read(lit, data, p);
}

/// A compressed block from position `p` on: its elements are put out one by one, until
/// its end or until the output has reached the limit.
pub open spec fn huffman_block(
    lit: Seq<u8>,
    dist: Seq<u8>,
    data: Seq<u8>,
    p: int,
    out: Seq<u8>,
    max_out: int,
) -> Option<Progress>
    decreases bit_len(data) - p,
{
    proof {
        lemma_token_progress(lit, dist, data, p);
    }
    if out.len() >= max_out {
        Some(Progress { pos: p, out, capped: true })
    } else {
        match read_token(lit, dist, data, p) {
            None => None,
            Some((Token::End, q)) => Some(Progress { pos: q, out, capped: false }),
            Some((token, q)) => match emit(out, token, max_out) {
                None => None,
                Some(more) => huffman_block(lit, dist, data, q, more, max_out),
            },
        }
    }
}

/// `out` with what the elements of a compressed block put out, from position `p` on: those
/// before its end, before the limit, or before the first one that is malformed or cut off.
pub open spec fn block_output(
    lit: Seq<u8>,
    dist: Seq<u8>,
    data: Seq<u8>,
    p: int,
    out: Seq<u8>,
    max_out: int,
) -> Seq<u8>
    decreases bit_len(data) - p,
{
    proof {
        lemma_token_progress(lit, dist, data, p);
    }
    if out.len() >= max_out {
        out
    } else {
        match read_token(lit, dist, data, p) {
            None => out,
            Some((Token::End, _)) => out,
            Some((token, q)) => match emit(out, token, max_out) {
                None => out,
                Some(more) => block_output(lit, dist, data, q, more, max_out),
            },
        }
    }
}

/// Where the reading of a compressed block stops: behind its end, at the limit, or where it
/// turns out to be malformed or cut off.
pub open spec fn block_stop(
    lit: Seq<u8>,
    dist: Seq<u8>,
    data: Seq<u8>,
    p: int,
    out: Seq<u8>,
    max_out: int,
) -> int
    decreases bit_len(data) - p,
{
    proof {
        lemma_token_progress(lit, dist, data, p);
    }
    if out.len() >= max_out {
        p
    } else {
        match read_token(lit, dist, data, p) {
            None => token_stop(lit, dist, data, p),
            Some((Token::End, q)) => q,
            Some((token, q)) => match emit(out, token, max_out) {
                None => q,
                Some(more) => block_stop(lit, dist, data, q, more, max_out),
            },
        }
    }
}

/// Whether a block was read to its end.
pub enum Flow {
    /// To its end.
    Continue,
    /// Until the output had reached its limit.
    Capped,
}

/// `flow` says that the reader at `pos` and the output `out` have come as far as `g`.
pub open spec fn flow_matches(g: Progress, flow: Flow, pos: int, out: Seq<u8>) -> bool {
    &&& pos == g.pos
    &&& out == g.out
    &&& (flow is Capped) == g.capped
}

/// Reads one element of a compressed block.
fn next_token(bits: &mut Bits, lit: &Huffman, dist: &Huffman) -> (r: Option<Token>)
    requires
        old(bits).wf(),
        lit.wf(),
        dist.wf(),
    ensures
        final(bits).wf(),
        final(bits).data() == old(bits).data(),
        match read_token(lit.lengths(), dist.lengths(), old(bits).data(), old(bits).pos()) {
            Some((token, q)) => r == Some(token) && final(bits).pos() == q,
            None => r is None,
        },
        final(bits).pos() == token_stop(
            lit.lengths(),
            dist.lengths(),
            old(bits).data(),
            old(bits).pos(),
        ),
        r matches Some(Token::Repeat { len, dist }) ==> len >= 3 && dist >= 1,
{
    let s = match lit.decode(bits) {
        Some(s) => s,
        None => {
            return None;
        },
    };
    if s < 256 {
        return Some(Token::Literal(s as u8));
    }
    if s == 256 {
        return Some(Token::End);
    }
    if s > 285 {
        return None;
    }
    let i = (s - 257) as usize;
    proof {
        lemma_extra_bits();
    }
    let ghost p = bits.pos();
    let more_len = match bits.get(LEN_EXT[i] as u32) {
        Some(more) => more,
        None => {
            return None;
        },
    };
    let d = match dist.decode(bits) {
        Some(d) => d as usize,
        None => {
            return None;
        },
    };
    if d >= 30 {
        return None;
    }
    let ghost q = bits.pos();
    let more_dist = match bits.get(DIST_EXT[d] as u32) {
        Some(more) => more,
        None => {
            return None;
        },
    };
    proof {
        vstd::arithmetic::power2::lemma2_to64();
        crate::bits::lemma_bits_value_below(bits.data(), p, LEN_EXT@[i as int] as nat, 5);
        crate::bits::lemma_bits_value_below(bits.data(), q, DIST_EXT@[d as int] as nat, 13);
    }
    Some(
        Token::Repeat {
            len: LEN_BASE[i] + more_len as u16,
            dist: DIST_BASE[d] + more_dist as u16,
        },
    )
}

/// Decompresses a compressed block with the codes `lit` and `dist`. Where the block is
/// malformed or cut off, gives `None` and keeps what came out before.
pub fn decode_block(
    bits: &mut Bits,
    lit: &Huffman,
    dist: &Huffman,
    out: &mut Vec<u8>,
    max_out: usize,
) -> (r: Option<Flow>)
    requires
        old(bits).wf(),
        lit.wf(),
        dist.wf(),
    ensures
        final(bits).wf(),
        final(bits).data() == old(bits).data(),
        final(bits).pos() == block_stop(
            lit.lengths(),
            dist.lengths(),
            old(bits).data(),
            old(bits).pos(),
            old(out)@,
            max_out as int,
        ),
        final(out)@ == block_output(
            lit.lengths(),
            dist.lengths(),
            old(bits).data(),
            old(bits).pos(),
            old(out)@,
            max_out as int,
        ),
        match huffman_block(
            lit.lengths(),
            dist.lengths(),
            old(bits).data(),
            old(bits).pos(),
            old(out)@,
            max_out as int,
        ) {
            Some(g) => r matches Some(flow) && flow_matches(
                g,
                flow,
                final(bits).pos(),
                final(out)@,
            ),
            None => r is None,
        },
{
    let ghost data = bits.data();
    let ghost (l, d, max) = (lit.lengths(), dist.lengths(), max_out as int);
    let ghost goal = huffman_block(l, d, data, bits.pos(), out@, max);
    let ghost all = block_output(l, d, data, bits.pos(), out@, max);
    let ghost stop = block_stop(l, d, data, bits.pos(), out@, max);
    while out.len() < max_out
        invariant
            bits.wf(),
            lit.wf(),
            dist.wf(),
            l == lit.lengths(),
            d == dist.lengths(),
            max == max_out,
            bits.data() == data,
            data == old(bits).data(),
            goal == huffman_block(l, d, data, old(bits).pos(), old(out)@, max),
            goal == huffman_block(l, d, data, bits.pos(), out@, max),
            all == block_output(l, d, data, old(bits).pos(), old(out)@, max),
            all == block_output(l, d, data, bits.pos(), out@, max),
            stop == block_stop(l, d, data, old(bits).pos(), old(out)@, max),
            stop == block_stop(l, d, data, bits.pos(), out@, max),
        decreases bit_len(data) - bits.pos(),
    {
        proof {
            lemma_token_progress(l, d, data, bits.pos());
        }
        let token = match next_token(bits, lit, dist) {
            Some(token) => token,
            None => {
                return None;
            },
        };
        match token {
            Token::Literal(byte) => {
                out.push(byte);
            },
            Token::End => {
                return Some(Flow::Continue);
            },
            Token::Repeat { len, dist: back } => {
                let len = len as usize;
                let back = back as usize;
                if back > out.len() {
                    return None;
                }
                let ghost start = out@;
                let mut k: usize = 0;
                while k < len && out.len() < max_out
                    invariant
                        k <= len,
                        1 <= back <= start.len() < max_out,
                        start.len() + k == out@.len() <= max_out,
                        out@ == repeat_back(start, back as int, k as nat),
                    decreases len - k,
                {
                    let byte = out[out.len() - back];
                    out.push(byte);
                    k += 1;
                }
            },
        }
    }
    Some(Flow::Capped)
}

/// A stored block behind its header: from the next byte boundary on, a length and its
/// complement of 16 bits each, then that many bytes as they are, up to the limit.
pub open spec fn stored_block(data: Seq<u8>, p: int, out: Seq<u8>, max_out: int) -> Option<
    Progress,
> {
    let q = aligned(p);
    match (read_bits(data, q, 16), read_bits(data, q + 16, 16)) {
        (Some(len), Some(complement)) => {
            let left = if out.len() < max_out {
                max_out - out.len()
            } else {
                0
            };
            let taken = if len <= left {
                len as int
            } else {
                left
            };
            let start = q / 8 + 4;
            if len + complement != 0xffff || start + taken > data.len() {
                None
            } else {
                Some(
                    Progress {
                        pos: 8 * (start + taken),
                        out: out + data.subrange(start, start + taken),
                        capped: taken < len,
                    },
                )
            }
        },
        _ => None,
    }
}

/// Copies a stored block. Where it is malformed or cut off, gives `None` and leaves the
/// output as it was.
pub fn stored(bits: &mut Bits, out: &mut Vec<u8>, max_out: usize) -> (r: Option<Flow>)
    requires
        old(bits).wf(),
    ensures
        final(bits).wf(),
        final(bits).data() == old(bits).data(),
        match stored_block(old(bits).data(), old(bits).pos(), old(out)@, max_out as int) {
            Some(g) => r matches Some(flow) && flow_matches(
                g,
                flow,
                final(bits).pos(),
                final(out)@,
            ),
            None => {
                &&& r is None
                &&& final(out)@ == old(out)@
                &&& final(bits).pos() == advance(old(bits).data(), aligned(old(bits).pos()), 32)
            },
        },
{
    bits.align();
    let ghost q = bits.pos();
    let len = match bits.get(16) {
        Some(len) => len,
        None => {
            return None;
        },
    };
    let complement = match bits.get(16) {
        Some(complement) => complement,
        None => {
            return None;
        },
    };
    proof {
        vstd::arithmetic::power2::lemma2_to64();
        crate::bits::lemma_bits_value_bound(bits.data(), q, 16);
        crate::bits::lemma_bits_value_bound(bits.data(), q + 16, 16);
        assert(len <= 0xffff && complement <= 0xffff ==> (len == (!complement & 0xffff)) == (len
            + complement == 0xffff)) by (bit_vector);
    }
    if len != !complement & 0xffff {
        return None;
    }
    let len = len as usize;
    let left = max_out.saturating_sub(out.len());
    let taken = if len <= left {
        len
    } else {
        left
    };
    let bytes = match bits.take_bytes(taken) {
        Some(bytes) => bytes,
        None => {
            return None;
        },
    };
    let ghost before = out@;
    out.extend_from_slice(bytes);
    assert(out@ == before + bytes@);
    if taken < len {
        return Some(Flow::Capped);
    }
    Some(Flow::Continue)
}

} // verus!
