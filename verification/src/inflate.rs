//! Decompression of zlib streams (RFC 1950).
use vstd::prelude::*;

use crate::adler::{adler32, checksum};
use crate::bits::{aligned, bit_len, read_bits, Bits};
use crate::block::{
    decode_block, flow_matches, huffman_block, stored, stored_block, Flow, Progress,
};
use crate::bytes::{be_at, read_be32};
use crate::tables::{block_tables, dynamic_tables, fixed_dist, fixed_lit, fixed_tables};

verus! {

/// The body of a block behind its header of three bits, of the kind that the header names.
/// Where the output is at its limit already, a compressed block is not looked into.
#[verifier::opaque]
pub open spec fn block_body(
    kind: nat,
    data: Seq<u8>,
    p: int,
    out: Seq<u8>,
    max_out: int,
) -> Option<Progress> {
    if kind == 0 {
        stored_block(data, p, out, max_out)
    } else if kind <= 2 && out.len() >= max_out {
        Some(Progress { pos: p, out, capped: true })
    } else if kind == 1 {
        huffman_block(fixed_lit(), fixed_dist(), data, p, out, max_out)
    } else if kind == 2 {
        match block_tables(data, p) {
            Some(tables) => huffman_block(tables.lit, tables.dist, data, tables.pos, out, max_out),
            None => None,
        }
    } else {
        None
    }
}

/// The blocks from position `p` on, up to the one that is marked as the last or until the
/// output has reached the limit.
pub open spec fn blocks(data: Seq<u8>, p: int, out: Seq<u8>, max_out: int) -> Option<Progress>
    decreases bit_len(data) - p,
{
    match (read_bits(data, p, 1), read_bits(data, p + 1, 2)) {
        (Some(last), Some(kind)) => {
            proof {
                lemma_body_progress(kind, data, p + 3, out, max_out);
            }
            match block_body(kind, data, p + 3, out, max_out) {
                None => None,
                Some(g) => if g.capped || last == 1 {
                    Some(g)
                } else {
                    blocks(data, g.pos, g.out, max_out)
                },
            }
        },
        _ => None,
    }
}

/// A compressed block ends in the data, not before its start.
proof fn lemma_huffman_progress(
    lit: Seq<u8>,
    dist: Seq<u8>,
    data: Seq<u8>,
    p: int,
    out: Seq<u8>,
    max_out: int,
)
    requires
        p <= bit_len(data),
    ensures
        huffman_block(lit, dist, data, p, out, max_out) matches Some(g) ==> p <= g.pos <= bit_len(
            data,
        ),
    decreases bit_len(data) - p,
{
    crate::block::lemma_token_progress(lit, dist, data, p);
    match crate::block::read_token(lit, dist, data, p) {
        Some((token, q)) => {
            match crate::block::emit(out, token, max_out) {
                Some(more) => {
                    lemma_huffman_progress(lit, dist, data, q, more, max_out);
                },
                None => {},
            }
        },
        None => {},
    }
}

/// A block ends in the data, not before its start.
pub proof fn lemma_body_progress(kind: nat, data: Seq<u8>, p: int, out: Seq<u8>, max_out: int)
    requires
        p <= bit_len(data),
    ensures
        block_body(kind, data, p, out, max_out) matches Some(g) ==> p <= g.pos <= bit_len(data),
{
    reveal(block_body);
    lemma_huffman_progress(fixed_lit(), fixed_dist(), data, p, out, max_out);
    match block_tables(data, p) {
        Some(tables) => {
            crate::tables::lemma_tables_progress(data, p);
            lemma_huffman_progress(tables.lit, tables.dist, data, tables.pos, out, max_out);
        },
        None => {},
    }
}

/// The checksum behind the last block is that of the output; a stream that ends before its
/// checksum is complete is not held to it.
pub open spec fn checksum_ok(data: Seq<u8>, g: Progress) -> bool {
    let q = aligned(g.pos) / 8;
    q + 4 <= data.len() ==> be_at(data, q, 4) == checksum(g.out)
}

/// What a zlib stream decompresses to, at the limit `max_out`: `None` where the stream is
/// malformed or cut off. Output that has reached the limit is given as it is.
pub open spec fn zlib(data: Seq<u8>, max_out: int) -> Option<Seq<u8>> {
    if data.len() < 2 || data[0] % 16 != 8 || data[1] / 32 % 2 != 0 {
        None
    } else {
        let body = data.skip(2);
        match blocks(body, 0, Seq::empty(), max_out) {
            None => None,
            Some(g) => if g.capped || checksum_ok(body, g) {
                Some(g.out)
            } else {
                None
            },
        }
    }
}

/// Decompresses the body of one block.
fn decode_body(kind: u32, bits: &mut Bits, out: &mut Vec<u8>, max_out: usize) -> (r: Option<Flow>)
    requires
        old(bits).wf(),
    ensures
        final(bits).wf(),
        final(bits).data() == old(bits).data(),
        match block_body(
            kind as nat,
            old(bits).data(),
            old(bits).pos(),
            old(out)@,
            max_out as int,
        ) {
            Some(g) => r matches Some(flow) && flow_matches(
                g,
                flow,
                final(bits).pos(),
                final(out)@,
            ),
            None => r is None,
        },
{
    proof {
        reveal(block_body);
    }
    if kind == 0 {
        stored(bits, out, max_out)
    } else if kind <= 2 && out.len() >= max_out {
        Some(Flow::Capped)
    } else if kind == 1 {
        let (lit, dist) = fixed_tables();
        decode_block(bits, &lit, &dist, out, max_out)
    } else if kind == 2 {
        match dynamic_tables(bits) {
            Some((lit, dist)) => decode_block(bits, &lit, &dist, out, max_out),
            None => None,
        }
    } else {
        None
    }
}

/// Decompresses a zlib stream, header included. Gives what has come out once that reaches
/// `max_out` bytes, and `None` where the data is malformed or cut off. The checksum is
/// compared where the stream was read to its end and still holds it.
pub fn zlib_decompress(data: &[u8], max_out: usize) -> (r: Option<Vec<u8>>)
    ensures
        match zlib(data@, max_out as int) {
            Some(out) => r matches Some(v) && v@ == out,
            None => r is None,
        },
        r matches Some(v) ==> v@.len() <= max_out,
{
    if data.len() < 2 {
        return None;
    }
    let cmf = data[0];
    let flg = data[1];
    proof {
        assert(cmf & 0x0f == cmf % 16) by (bit_vector);
        assert((flg & 0x20 != 0) == (flg / 32 % 2 != 0)) by (bit_vector);
    }
    if cmf & 0x0f != 8 || flg & 0x20 != 0 {
        return None;
    }
    let body = vstd::slice::slice_subrange(data, 2, data.len());
    assert(body@ == data@.skip(2));
    let mut bits = Bits::new(body);
    let mut out: Vec<u8> = Vec::new();
    let ghost goal = blocks(body@, 0, Seq::empty(), max_out as int);
    loop
        invariant_except_break
            goal == blocks(body@, bits.pos(), out@, max_out as int),
        invariant
            body@ == data@.skip(2),
            data@.len() >= 2 && data@[0] % 16 == 8 && data@[1] / 32 % 2 == 0,
            goal == blocks(body@, 0, Seq::empty(), max_out as int),
            bits.wf(),
            bits.data() == body@,
        ensures
            goal == Some(Progress { pos: bits.pos(), out: out@, capped: false }),
        decreases bit_len(body@) - bits.pos(),
    {
        let ghost p = bits.pos();
        let last = match bits.get(1) {
            Some(last) => last,
            None => {
                return None;
            },
        };
        let kind = match bits.get(2) {
            Some(kind) => kind,
            None => {
                return None;
            },
        };
        proof {
            lemma_body_progress(kind as nat, body@, p + 3, out@, max_out as int);
        }
        match decode_body(kind, &mut bits, &mut out, max_out) {
            None => {
                return None;
            },
            Some(Flow::Capped) => {
                proof {
                    crate::limits::output_bounded(data@, max_out as int);
                }
                return Some(out);
            },
            Some(Flow::Continue) => {},
        }
        if last == 1 {
            break;
        }
    }
    let ghost g = Progress { pos: bits.pos(), out: out@, capped: false };
    bits.align();
    proof {
        bits.lemma_pos();
    }
    if let Some(tail) = bits.take_bytes(4) {
        let expect = read_be32(tail, 0);
        assert(tail@.subrange(0, 4) == tail@);
        if adler32(out.as_slice()) != expect {
            return None;
        }
    }
    proof {
        crate::limits::output_bounded(data@, max_out as int);
    }
    Some(out)
}

} // verus!
